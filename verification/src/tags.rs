//! Tag reconciliation: parse a raw comma-separated tag string and plan the
//! minimal set of tagging inserts and deletes that converge a post's
//! association set to the new desired set.
//!
//! The store itself (tag row lookup and creation, tagging inserts and
//! deletes) is an external collaborator.  The surrounding service layer
//! fetches the post's current tag-id set, resolves each parsed token to a
//! tag id (a per-token step that may fail without aborting the whole
//! update), asks [`reconcile_plan`] for the minimal write set, and performs
//! exactly the writes the plan lists.

use crate::TagId;
use vstd::prelude::*;

verus! {

/// A character the tokenizer strips from the ends of a tag token: the
/// Unicode whitespace characters.
pub open spec fn is_space(c: char) -> bool {
    ||| c == ' '
    ||| c == '\t'
    ||| c == '\n'
    ||| c == '\r'
    ||| c == '\u{000B}'
    ||| c == '\u{000C}'
    ||| c == '\u{0085}'
    ||| c == '\u{00A0}'
    ||| c == '\u{1680}'
    ||| ('\u{2000}' <= c && c <= '\u{200A}')
    ||| c == '\u{2028}'
    ||| c == '\u{2029}'
    ||| c == '\u{202F}'
    ||| c == '\u{205F}'
    ||| c == '\u{3000}'
}

/// Leading spaces removed.
pub open spec fn trim_left(s: Seq<char>) -> Seq<char>
    decreases s.len(),
{
    if s.len() > 0 && is_space(s[0]) {
        trim_left(s.drop_first())
    } else {
        s
    }
}

/// Trailing spaces removed.
pub open spec fn trim_right(s: Seq<char>) -> Seq<char>
    decreases s.len(),
{
    if s.len() > 0 && is_space(s.last()) {
        trim_right(s.drop_last())
    } else {
        s
    }
}

/// Leading and trailing spaces removed.
pub open spec fn trimmed(s: Seq<char>) -> Seq<char> {
    trim_right(trim_left(s))
}

/// The pieces of `s` between commas, in order.  Splitting never drops a
/// piece: a string with `k` commas yields exactly `k + 1` pieces, empty
/// pieces included.
pub open spec fn split_commas(s: Seq<char>) -> Seq<Seq<char>>
    decreases s.len(),
{
    if s.len() == 0 {
        seq![Seq::<char>::empty()]
    } else if s.last() == ',' {
        split_commas(s.drop_last()).push(Seq::<char>::empty())
    } else {
        let p = split_commas(s.drop_last());
        p.update(p.len() - 1, p.last().push(s.last()))
    }
}

/// The tag tokens of a raw tag string: the comma-separated pieces, each
/// trimmed, with pieces that trim to nothing discarded.  Order and
/// duplicates among the surviving tokens are preserved.
pub open spec fn parse_spec(s: Seq<char>) -> Seq<Seq<char>> {
    split_commas(s).map_values(|t: Seq<char>| trimmed(t)).filter(|t: Seq<char>| t.len() > 0)
}

pub proof fn lemma_split_commas_len(s: Seq<char>)
    ensures
        split_commas(s).len() >= 1,
    decreases s.len(),
{
    if s.len() > 0 {
        lemma_split_commas_len(s.drop_last());
    }
}

/// `s` with leading and trailing spaces removed, as [`trimmed`] describes.
pub fn trim_token(s: &str) -> (t: String)
    ensures
        t@ == trimmed(s@),
{
    let n = s.unicode_len();
    let mut a: usize = 0;
    proof {
        assert(s@.skip(0) =~= s@);
    }
    while a < n && is_space_char(s.get_char(a))
        invariant
            a <= n,
            n == s@.len(),
            trim_left(s@) == trim_left(s@.skip(a as int)),
        decreases n - a,
    {
        proof {
            assert(s@.skip(a as int).drop_first() =~= s@.skip(a as int + 1));
        }
        a = a + 1;
    }
    proof {
        if a < n {
            assert(trim_left(s@.skip(a as int)) == s@.skip(a as int));
        } else {
            assert(s@.skip(a as int) =~= Seq::<char>::empty());
        }
        assert(trim_left(s@) == s@.skip(a as int));
        assert(s@.skip(a as int) =~= s@.subrange(a as int, n as int));
    }
    let mut b: usize = n;
    while b > a && is_space_char(s.get_char(b - 1))
        invariant
            a <= b <= n,
            n == s@.len(),
            trim_left(s@) == s@.skip(a as int),
            trim_right(s@.skip(a as int)) == trim_right(s@.subrange(a as int, b as int)),
        decreases b,
    {
        proof {
            assert(s@.subrange(a as int, b as int).last() == s@[b - 1]);
            assert(s@.subrange(a as int, b as int).drop_last() =~= s@.subrange(
                a as int,
                b as int - 1,
            ));
        }
        b = b - 1;
    }
    proof {
        assert(s@.skip(a as int) =~= s@.subrange(a as int, n as int));
        if b > a {
            assert(trim_right(s@.subrange(a as int, b as int)) == s@.subrange(a as int, b as int));
        } else {
            assert(s@.subrange(a as int, b as int) =~= Seq::<char>::empty());
        }
        assert(trimmed(s@) == s@.subrange(a as int, b as int));
    }
    let piece = s.substring_char(a, b);
    piece.to_owned()
}

/// Executable twin of [`is_space`].
fn is_space_char(c: char) -> (b: bool)
    ensures
        b == is_space(c),
{
    c == ' ' || c == '\t' || c == '\n' || c == '\r' || c == '\u{000B}' || c == '\u{000C}' || c
        == '\u{0085}' || c == '\u{00A0}' || c == '\u{1680}' || ('\u{2000}' <= c && c <= '\u{200A}')
        || c == '\u{2028}' || c == '\u{2029}' || c == '\u{202F}' || c == '\u{205F}' || c
        == '\u{3000}'
}

/// Splits a raw tag string on commas, trims each piece, and returns the
/// pieces that survive trimming, in order, duplicates kept.
pub fn parse_tokens(raw: &str) -> (tokens: Vec<String>)
    ensures
        tokens@.map_values(|t: String| t@) == parse_spec(raw@),
{
    let n = raw.unicode_len();
    let mut tokens: Vec<String> = Vec::new();
    let mut start: usize = 0;
    let mut i: usize = 0;
    proof {
        assert(raw@.take(0) =~= Seq::<char>::empty());
        assert(split_commas(raw@.take(0)) == seq![Seq::<char>::empty()]);
        assert(tokens@.map_values(|t: String| t@) =~= Seq::<Seq<char>>::empty());
        lemma_parse_empty_prefix();
    }
    while i < n
        invariant
            start <= i <= n,
            n == raw@.len(),
            split_commas(raw@.take(i as int)).last() == raw@.subrange(start as int, i as int),
            tokens@.map_values(|t: String| t@) == split_commas(raw@.take(i as int)).drop_last()
                .map_values(|t: Seq<char>| trimmed(t)).filter(|t: Seq<char>| t.len() > 0),
        decreases n - i,
    {
        let ghost parts = split_commas(raw@.take(i as int));
        proof {
            lemma_split_commas_len(raw@.take(i as int));
            assert(raw@.take(i as int + 1).len() == i as int + 1);
            assert(raw@.take(i as int + 1).last() == raw@[i as int]);
            assert(raw@.take(i as int + 1).drop_last() =~= raw@.take(i as int));
        }
        let c = raw.get_char(i);
        if c == ',' {
            proof {
                assert(split_commas(raw@.take(i as int + 1)) == parts.push(Seq::<char>::empty()));
                assert(parts.push(Seq::<char>::empty()).drop_last() =~= parts);
                assert(parts =~= parts.drop_last().push(parts.last()));
                lemma_tokens_step(parts.drop_last(), parts.last());
            }
            let piece = raw.substring_char(start, i);
            let t = trim_token(piece);
            let ghost toks0 = tokens@;
            if t.unicode_len() > 0 {
                tokens.push(t);
                proof {
                    assert(tokens@.map_values(|t: String| t@) =~= toks0.map_values(|t: String| t@)
                        .push(tokens@.last()@));
                }
            }
            start = i + 1;
            proof {
                assert(raw@.subrange(start as int, i as int + 1) =~= Seq::<char>::empty());
            }
        } else {
            proof {
                let p2 = split_commas(raw@.take(i as int + 1));
                assert(p2 == parts.update(parts.len() - 1, parts.last().push(raw@[i as int])));
                assert(p2.drop_last() =~= parts.drop_last());
                assert(p2.last() == parts.last().push(raw@[i as int]));
                assert(raw@.subrange(start as int, i as int).push(raw@[i as int]) =~= raw@.subrange(
                    start as int,
                    i as int + 1,
                ));
            }
        }
        i = i + 1;
    }
    proof {
        assert(raw@.take(n as int) =~= raw@);
        lemma_split_commas_len(raw@);
        let parts = split_commas(raw@);
        assert(parts =~= parts.drop_last().push(parts.last()));
        lemma_tokens_step(parts.drop_last(), parts.last());
    }
    let piece = raw.substring_char(start, n);
    let t = trim_token(piece);
    let ghost toks0 = tokens@;
    if t.unicode_len() > 0 {
        tokens.push(t);
        proof {
            assert(tokens@.map_values(|t: String| t@) =~= toks0.map_values(|t: String| t@).push(
                tokens@.last()@,
            ));
        }
    }
    tokens
}

/// Trimming and filtering distribute over finishing one piece: the tokens
/// of `parts.push(piece)` are the tokens of `parts`, extended with the
/// trimmed piece when it is nonempty.
proof fn lemma_tokens_step(parts: Seq<Seq<char>>, piece: Seq<char>)
    ensures
        trimmed(piece).len() > 0 ==> parts.push(piece).map_values(|t: Seq<char>| trimmed(t)).filter(
            |t: Seq<char>| t.len() > 0,
        ) == parts.map_values(|t: Seq<char>| trimmed(t)).filter(|t: Seq<char>| t.len() > 0).push(
            trimmed(piece),
        ),
        trimmed(piece).len() == 0 ==> parts.push(piece).map_values(|t: Seq<char>| trimmed(t))
            .filter(|t: Seq<char>| t.len() > 0) == parts.map_values(|t: Seq<char>| trimmed(t))
            .filter(|t: Seq<char>| t.len() > 0),
{
    let f = |t: Seq<char>| trimmed(t);
    let pred = |t: Seq<char>| t.len() > 0;
    assert(parts.push(piece).map_values(f) =~= parts.map_values(f).push(trimmed(piece)));
    parts.map_values(f).lemma_filter_push(trimmed(piece), pred);
}

proof fn lemma_parse_empty_prefix()
    ensures
        Seq::<Seq<char>>::empty().map_values(|t: Seq<char>| trimmed(t)).filter(
            |t: Seq<char>| t.len() > 0,
        ) =~= Seq::<Seq<char>>::empty(),
{
    let mapped = Seq::<Seq<char>>::empty().map_values(|t: Seq<char>| trimmed(t));
    assert(mapped =~= Seq::<Seq<char>>::empty());
    mapped.lemma_filter_len(|t: Seq<char>| t.len() > 0);
}

/// The writes that converge a post's tagging set: insert a tagging for each
/// id in `to_add`, delete the tagging of each id in `to_remove`.  No other
/// write is needed, and none of these is redundant.
pub struct TagPlan {
    pub to_add: Vec<TagId>,
    pub to_remove: Vec<TagId>,
}

/// The ids to insert: each id of `resolved`, at its first occurrence, that
/// the post is not already associated with.  Repeated tokens of one update
/// are de-duplicated; order of first occurrence is kept.
pub open spec fn to_add_spec(existing: Seq<TagId>, resolved: Seq<TagId>) -> Seq<TagId>
    decreases resolved.len(),
{
    if resolved.len() == 0 {
        Seq::empty()
    } else {
        let prefix = to_add_spec(existing, resolved.drop_last());
        let id = resolved.last();
        if existing.contains(id) || prefix.contains(id) {
            prefix
        } else {
            prefix.push(id)
        }
    }
}

/// The ids to delete: the existing ids that no token of the update
/// re-confirmed.
pub open spec fn to_remove_spec(existing: Seq<TagId>, resolved: Seq<TagId>) -> Seq<TagId> {
    existing.filter(|x: TagId| !resolved.contains(x))
}

/// The association set after a plan is applied: the existing ids that the
/// plan does not delete, plus the ids it inserts.
pub open spec fn apply_plan_spec(
    existing: Seq<TagId>,
    to_add: Seq<TagId>,
    to_remove: Seq<TagId>,
) -> Seq<TagId> {
    existing.filter(|x: TagId| !to_remove.contains(x)) + to_add
}

/// The association set after reconciling `existing` against `resolved`.
pub open spec fn after_reconcile(existing: Seq<TagId>, resolved: Seq<TagId>) -> Seq<TagId> {
    apply_plan_spec(
        existing,
        to_add_spec(existing, resolved),
        to_remove_spec(existing, resolved),
    )
}

/// Whether `v` holds `x`.
fn contains_id(v: &Vec<TagId>, x: TagId) -> (b: bool)
    ensures
        b == v@.contains(x),
{
    let mut i: usize = 0;
    while i < v.len()
        invariant
            i <= v@.len(),
            forall|k: int| 0 <= k < i ==> v@[k] != x,
        decreases v@.len() - i,
    {
        if v[i] == x {
            return true;
        }
        i = i + 1;
    }
    false
}

/// Computes the minimal write set that converges the association set
/// `existing` to the distinct ids of `resolved`.
///
/// `existing` is the post's current tag-id set, so it holds no duplicates;
/// `resolved` lists the tag id of each successfully resolved token, in
/// token order, duplicates allowed.
pub fn plan_updates(existing: &Vec<TagId>, resolved: &Vec<TagId>) -> (plan: TagPlan)
    ensures
        plan.to_add@ == to_add_spec(existing@, resolved@),
        plan.to_remove@ == to_remove_spec(existing@, resolved@),
{
    let mut to_add: Vec<TagId> = Vec::new();
    let mut i: usize = 0;
    proof {
        assert(resolved@.take(0) =~= Seq::<TagId>::empty());
    }
    while i < resolved.len()
        invariant
            i <= resolved@.len(),
            to_add@ == to_add_spec(existing@, resolved@.take(i as int)),
        decreases resolved@.len() - i,
    {
        proof {
            assert(resolved@.take(i as int + 1).drop_last() =~= resolved@.take(i as int));
            assert(resolved@.take(i as int + 1).last() == resolved@[i as int]);
        }
        let id = resolved[i];
        if !contains_id(existing, id) && !contains_id(&to_add, id) {
            to_add.push(id);
        }
        i = i + 1;
    }
    proof {
        assert(resolved@.take(resolved@.len() as int) =~= resolved@);
    }
    let mut to_remove: Vec<TagId> = Vec::new();
    let mut j: usize = 0;
    proof {
        assert(existing@.take(0) =~= Seq::<TagId>::empty());
        existing@.take(0).lemma_filter_len(|x: TagId| !resolved@.contains(x));
        assert(to_remove@ =~= to_remove_spec(existing@.take(0), resolved@));
    }
    while j < existing.len()
        invariant
            j <= existing@.len(),
            to_remove@ == to_remove_spec(existing@.take(j as int), resolved@),
        decreases existing@.len() - j,
    {
        proof {
            assert(existing@.take(j as int + 1) =~= existing@.take(j as int).push(
                existing@[j as int],
            ));
            existing@.take(j as int).lemma_filter_push(
                existing@[j as int],
                |x: TagId| !resolved@.contains(x),
            );
        }
        let id = existing[j];
        if !contains_id(resolved, id) {
            to_remove.push(id);
        }
        j = j + 1;
    }
    proof {
        assert(existing@.take(existing@.len() as int) =~= existing@);
    }
    TagPlan { to_add, to_remove }
}

/// The tag ids of the tokens that resolved, in token order; failed tokens
/// contribute nothing.
pub open spec fn resolved_ids(outcomes: Seq<Option<TagId>>) -> Seq<TagId>
    decreases outcomes.len(),
{
    if outcomes.len() == 0 {
        Seq::empty()
    } else {
        let prefix = resolved_ids(outcomes.drop_last());
        match outcomes.last() {
            Some(id) => prefix.push(id),
            None => prefix,
        }
    }
}

/// A reconciliation plan together with the number of tokens whose
/// resolution failed, kept for observability: failures are absorbed, not
/// fatal.
pub struct ReconcileReport {
    pub plan: TagPlan,
    pub failed: usize,
}

/// Plans the reconciliation of a post's tag set from per-token resolution
/// outcomes: `outcomes[k]` is the tag id the store resolved or created for
/// the `k`-th parsed token, or `None` where that single resolution failed.
///
/// A failed token is skipped — it neither blocks the other tokens nor
/// fails the call — and is counted in the report.
pub fn reconcile_plan(existing: &Vec<TagId>, outcomes: &Vec<Option<TagId>>) -> (r: ReconcileReport)
    ensures
        r.plan.to_add@ == to_add_spec(existing@, resolved_ids(outcomes@)),
        r.plan.to_remove@ == to_remove_spec(existing@, resolved_ids(outcomes@)),
        r.failed + resolved_ids(outcomes@).len() == outcomes@.len(),
{
    let mut ids: Vec<TagId> = Vec::new();
    let mut failed: usize = 0;
    let mut i: usize = 0;
    proof {
        assert(outcomes@.take(0) =~= Seq::<Option<TagId>>::empty());
    }
    while i < outcomes.len()
        invariant
            i <= outcomes@.len(),
            ids@ == resolved_ids(outcomes@.take(i as int)),
            failed + ids@.len() == i,
        decreases outcomes@.len() - i,
    {
        proof {
            assert(outcomes@.take(i as int + 1).drop_last() =~= outcomes@.take(i as int));
            assert(outcomes@.take(i as int + 1).last() == outcomes@[i as int]);
        }
        match outcomes[i] {
            Some(id) => {
                ids.push(id);
            },
            None => {
                failed = failed + 1;
            },
        }
        i = i + 1;
    }
    proof {
        assert(outcomes@.take(outcomes@.len() as int) =~= outcomes@);
    }
    let plan = plan_updates(existing, &ids);
    ReconcileReport { plan, failed }
}

/// The staged additions hold no duplicates, and are exactly the resolved
/// ids that the post lacked.
pub proof fn lemma_to_add_props(existing: Seq<TagId>, resolved: Seq<TagId>)
    ensures
        to_add_spec(existing, resolved).no_duplicates(),
        to_add_spec(existing, resolved).to_set() == resolved.to_set().difference(existing.to_set()),
    decreases resolved.len(),
{
    if resolved.len() == 0 {
        assert(to_add_spec(existing, resolved).to_set() =~= resolved.to_set().difference(
            existing.to_set(),
        ));
    } else {
        let rest = resolved.drop_last();
        let id = resolved.last();
        lemma_to_add_props(existing, rest);
        let prefix = to_add_spec(existing, rest);
        let whole = to_add_spec(existing, resolved);
        assert(resolved.contains(id));
        assert forall|x: TagId| rest.contains(x) implies resolved.contains(x) by {
            let k = choose|k: int| 0 <= k < rest.len() && rest[k] == x;
            assert(resolved[k] == x);
        }
        assert forall|x: TagId| resolved.contains(x) && x != id implies rest.contains(x) by {
            let k = choose|k: int| 0 <= k < resolved.len() && resolved[k] == x;
            assert(rest[k] == x);
        }
        if existing.contains(id) || prefix.contains(id) {
            assert(whole.to_set() =~= resolved.to_set().difference(existing.to_set()));
        } else {
            assert forall|x: TagId| whole.contains(x) implies prefix.contains(x) || x == id by {
                let k = choose|k: int| 0 <= k < whole.len() && whole[k] == x;
                if k < prefix.len() {
                    assert(prefix[k] == x);
                }
            }
            assert forall|x: TagId| prefix.contains(x) || x == id implies whole.contains(x) by {
                if prefix.contains(x) {
                    let k = choose|k: int| 0 <= k < prefix.len() && prefix[k] == x;
                    assert(whole[k] == x);
                } else {
                    assert(whole[prefix.len() as int] == id);
                }
            }
            assert forall|x: TagId|
                whole.contains(x) implies resolved.contains(x) && !existing.contains(x) by {
                if prefix.contains(x) {
                    assert(prefix.to_set().contains(x));
                    assert(rest.to_set().contains(x));
                }
            }
            assert forall|x: TagId|
                resolved.contains(x) && !existing.contains(x) implies whole.contains(x) by {
                if x != id {
                    assert(rest.to_set().contains(x));
                    assert(prefix.to_set().contains(x));
                }
            }
            assert(whole.to_set() =~= resolved.to_set().difference(existing.to_set()));
        }
    }
}

/// Filtering keeps a duplicate-free sequence duplicate-free.
proof fn lemma_filter_no_dup(s: Seq<TagId>, pred: spec_fn(TagId) -> bool)
    requires
        s.no_duplicates(),
    ensures
        s.filter(pred).no_duplicates(),
    decreases s.len(),
{
    reveal(Seq::filter);
    if s.len() > 0 {
        let rest = s.drop_last();
        let last = s.last();
        lemma_filter_no_dup(rest, pred);
        if pred(last) {
            assert(!rest.contains(last));
            if rest.filter(pred).contains(last) {
                rest.lemma_filter_contains_rev(pred, last);
            }
            assert(s.filter(pred) == rest.filter(pred).push(last));
            assert(s.filter(pred).no_duplicates());
        }
    }
}

/// The staged removals hold no duplicates, and are exactly the existing
/// ids that no token of the update re-confirmed.
pub proof fn lemma_to_remove_props(existing: Seq<TagId>, resolved: Seq<TagId>)
    requires
        existing.no_duplicates(),
    ensures
        to_remove_spec(existing, resolved).no_duplicates(),
        to_remove_spec(existing, resolved).to_set() == existing.to_set().difference(
            resolved.to_set(),
        ),
        forall|x: TagId| #[trigger] to_remove_spec(existing, resolved).contains(x) <==> (
        existing.contains(x) && !resolved.contains(x)),
{
    broadcast use vstd::seq_lib::group_filter_ensures;

    let pred = |x: TagId| !resolved.contains(x);
    let rem = existing.filter(pred);
    lemma_filter_no_dup(existing, pred);
    assert forall|x: TagId| rem.contains(x) implies existing.contains(x) && !resolved.contains(
        x,
    ) by {
        existing.lemma_filter_contains_rev(pred, x);
        let k = choose|k: int| 0 <= k < rem.len() && rem[k] == x;
        existing.lemma_filter_pred(pred, k);
    }
    assert forall|x: TagId| existing.contains(x) && !resolved.contains(x) implies rem.contains(
        x,
    ) by {
        let k = choose|k: int| 0 <= k < existing.len() && existing[k] == x;
        existing.lemma_filter_contains(pred, k);
    }
    assert(rem.to_set() =~= existing.to_set().difference(resolved.to_set()));
}

/// Convergence: reconciling a duplicate-free association set `existing`
/// against the resolved ids `resolved` yields exactly the distinct resolved
/// ids, and the plan is minimal — it inserts exactly the resolved ids that
/// were missing and deletes exactly the existing ids that were not
/// re-confirmed, each once.
pub proof fn lemma_reconcile_converges(existing: Seq<TagId>, resolved: Seq<TagId>)
    requires
        existing.no_duplicates(),
    ensures
        after_reconcile(existing, resolved).to_set() == resolved.to_set(),
        after_reconcile(existing, resolved).no_duplicates(),
        to_add_spec(existing, resolved).len() == resolved.to_set().difference(
            existing.to_set(),
        ).len(),
        to_remove_spec(existing, resolved).len() == existing.to_set().difference(
            resolved.to_set(),
        ).len(),
{
    broadcast use vstd::seq_lib::group_filter_ensures;

    lemma_to_add_props(existing, resolved);
    lemma_to_remove_props(existing, resolved);
    let add = to_add_spec(existing, resolved);
    let rem = to_remove_spec(existing, resolved);
    let keep_pred = |x: TagId| !rem.contains(x);
    let kept = existing.filter(keep_pred);
    let after = after_reconcile(existing, resolved);
    lemma_filter_no_dup(existing, keep_pred);
    add.unique_seq_to_set();
    rem.unique_seq_to_set();
    assert forall|x: TagId| kept.contains(x) implies existing.contains(x) && resolved.contains(
        x,
    ) by {
        existing.lemma_filter_contains_rev(keep_pred, x);
        let k = choose|k: int| 0 <= k < kept.len() && kept[k] == x;
        existing.lemma_filter_pred(keep_pred, k);
    }
    assert forall|x: TagId| existing.contains(x) && resolved.contains(x) implies kept.contains(
        x,
    ) by {
        let k = choose|k: int| 0 <= k < existing.len() && existing[k] == x;
        existing.lemma_filter_contains(keep_pred, k);
    }
    assert forall|x: TagId| after.contains(x) implies kept.contains(x) || add.contains(x) by {
        let k = choose|k: int| 0 <= k < after.len() && after[k] == x;
        if k < kept.len() {
            assert(kept[k] == x);
        } else {
            assert(add[k - kept.len()] == x);
        }
    }
    assert forall|x: TagId| kept.contains(x) || add.contains(x) implies after.contains(x) by {
        if kept.contains(x) {
            let k = choose|k: int| 0 <= k < kept.len() && kept[k] == x;
            assert(after[k] == x);
        } else {
            let k = choose|k: int| 0 <= k < add.len() && add[k] == x;
            assert(after[kept.len() + k] == x);
        }
    }
    assert forall|x: TagId| after.contains(x) implies resolved.contains(x) by {
        if kept.contains(x) {
        } else {
            assert(add.to_set().contains(x));
        }
    }
    assert forall|x: TagId| resolved.contains(x) implies after.contains(x) by {
        if existing.contains(x) {
            assert(kept.contains(x));
        } else {
            assert(add.to_set().contains(x));
            assert(add.contains(x));
        }
    }
    assert(after.to_set() =~= resolved.to_set());
    assert forall|i: int, j: int|
        0 <= i < kept.len() && 0 <= j < add.len() implies kept[i] != add[j] by {
        assert(kept.contains(kept[i]));
        assert(add.contains(add[j]));
        assert(add.to_set().contains(add[j]));
    }
    vstd::seq_lib::lemma_no_dup_in_concat(kept, add);
}

/// A plan computed against an association set that already equals the
/// desired set stages no insert and no delete.
pub proof fn lemma_plan_empty_when_converged(existing: Seq<TagId>, resolved: Seq<TagId>)
    requires
        existing.to_set() == resolved.to_set(),
    ensures
        to_add_spec(existing, resolved) == Seq::<TagId>::empty(),
        to_remove_spec(existing, resolved) == Seq::<TagId>::empty(),
    decreases resolved.len(),
{
    let pred = |x: TagId| !resolved.contains(x);
    assert(existing.all(|x: TagId| !pred(x))) by {
        assert forall|x: TagId| existing.contains(x) implies resolved.contains(x) by {
            assert(existing.to_set().contains(x));
        }
        reveal(Seq::all);
        assert forall|i: int| 0 <= i < existing.len() implies !pred(existing[i]) by {
            assert(existing.contains(existing[i]));
        }
    }
    existing.lemma_all_neg_filter_empty(pred);
    assert(to_remove_spec(existing, resolved) =~= Seq::<TagId>::empty());
    assert forall|x: TagId| resolved.contains(x) implies existing.contains(x) by {
        assert(resolved.to_set().contains(x));
    }
    lemma_to_add_empty_when_covered(existing, resolved);
}

/// No addition is staged when every resolved id is already associated.
proof fn lemma_to_add_empty_when_covered(existing: Seq<TagId>, resolved: Seq<TagId>)
    requires
        forall|x: TagId| resolved.contains(x) ==> existing.contains(x),
    ensures
        to_add_spec(existing, resolved) == Seq::<TagId>::empty(),
    decreases resolved.len(),
{
    if resolved.len() > 0 {
        let rest = resolved.drop_last();
        assert forall|x: TagId| rest.contains(x) implies existing.contains(x) by {
            let k = choose|k: int| 0 <= k < rest.len() && rest[k] == x;
            assert(resolved[k] == x);
        }
        lemma_to_add_empty_when_covered(existing, rest);
        assert(resolved.contains(resolved.last()));
    }
}

/// Idempotence: reconciling twice in a row against the same resolved ids
/// plans zero inserts and zero deletes the second time.
pub proof fn lemma_reconcile_idempotent(existing: Seq<TagId>, resolved: Seq<TagId>)
    requires
        existing.no_duplicates(),
    ensures
        to_add_spec(after_reconcile(existing, resolved), resolved) == Seq::<TagId>::empty(),
        to_remove_spec(after_reconcile(existing, resolved), resolved) == Seq::<TagId>::empty(),
{
    lemma_reconcile_converges(existing, resolved);
    lemma_plan_empty_when_converged(after_reconcile(existing, resolved), resolved);
}

/// Partial-failure tolerance: tokens whose resolution failed are absorbed,
/// and the association set still converges to exactly the ids of the
/// tokens that did resolve.
pub proof fn lemma_partial_failure_converges(existing: Seq<TagId>, outcomes: Seq<Option<TagId>>)
    requires
        existing.no_duplicates(),
    ensures
        after_reconcile(existing, resolved_ids(outcomes)).to_set() == resolved_ids(
            outcomes,
        ).to_set(),
{
    lemma_reconcile_converges(existing, resolved_ids(outcomes));
}

} // verus!
