//! History graph helpers: the common ancestor of two commits over the
//! commit DAG, by breadth-first traversal over parent lists in their
//! stored order.
use vstd::prelude::*;
use crate::commit::{CommitId, commit_id_eq, id_views};

verus! {

/// `parents_of` reported `y` among the parents of `x`.
pub open spec fn observed_parent<F: Fn(CommitId) -> Option<Vec<CommitId>>>(
    f: F,
    x: Seq<u8>,
    y: Seq<u8>,
) -> bool {
    exists|c: CommitId, ret: Option<Vec<CommitId>>|
        #![trigger f.ensures((c,), ret)]
        c@ == x && f.ensures((c,), ret) && (ret matches Some(v) && id_views(v@).contains(y))
}

/// Positions `i` and `i + 1` of `p` are a commit and one of its parents.
pub open spec fn parent_step<F: Fn(CommitId) -> Option<Vec<CommitId>>>(
    f: F,
    p: Seq<Seq<u8>>,
    i: int,
) -> bool {
    observed_parent(f, p[i], p[i + 1])
}

/// `y` is `x` or an ancestor of it, through reported parent lists.
pub open spec fn descends<F: Fn(CommitId) -> Option<Vec<CommitId>>>(
    f: F,
    x: Seq<u8>,
    y: Seq<u8>,
) -> bool {
    exists|p: Seq<Seq<u8>>|
        #![trigger p.len(), p[0], p.last()]
        p.len() >= 1 && p[0] == x && p.last() == y && forall|i: int|
            0 <= i < p.len() - 1 ==> #[trigger] parent_step(f, p, i)
}

proof fn lemma_descends_self<F: Fn(CommitId) -> Option<Vec<CommitId>>>(f: F, x: Seq<u8>)
    ensures
        descends(f, x, x),
{
    let p = seq![x];
    assert(p.len() >= 1 && p[0] == x && p.last() == x);
}

proof fn lemma_descends_step<F: Fn(CommitId) -> Option<Vec<CommitId>>>(
    f: F,
    x: Seq<u8>,
    u: Seq<u8>,
    v: Seq<u8>,
)
    requires
        descends(f, x, u),
        observed_parent(f, u, v),
    ensures
        descends(f, x, v),
{
    let p = choose|p: Seq<Seq<u8>>|
        #![trigger p.len(), p[0], p.last()]
        p.len() >= 1 && p[0] == x && p.last() == u && forall|i: int|
            0 <= i < p.len() - 1 ==> #[trigger] parent_step(f, p, i);
    let q = p.push(v);
    assert forall|i: int| 0 <= i < q.len() - 1 implies #[trigger] parent_step(f, q, i) by {
        if i < p.len() - 1 {
            assert(parent_step(f, p, i));
            assert(q[i] == p[i] && q[i + 1] == p[i + 1]);
        } else {
            assert(q[i] == u && q[i + 1] == v);
        }
    }
    assert(q.len() >= 1 && q[0] == x && q.last() == v);
}

/// Whether a list holds a commit id.
pub(crate) fn holds_id(v: &Vec<CommitId>, c: &CommitId) -> (r: bool)
    ensures
        r == id_views(v@).contains(c@),
{
    let mut i: usize = 0;
    while i < v.len()
        invariant
            i <= v@.len(),
            forall|j: int| 0 <= j < i ==> v@[j]@ != c@,
        decreases v@.len() - i,
    {
        if commit_id_eq(&v[i], c) {
            proof {
                assert(id_views(v@)[i as int] == c@);
            }
            return true;
        }
        i = i + 1;
    }
    proof {
        if id_views(v@).contains(c@) {
            let j = choose|j: int| 0 <= j < id_views(v@).len() && id_views(v@)[j] == c@;
            assert(v@[j]@ == c@);
        }
    }
    false
}

/// `known` with each of `ps` appended, in order, unless already present.
pub open spec fn with_new(known: Seq<Seq<u8>>, ps: Seq<Seq<u8>>) -> Seq<Seq<u8>>
    decreases ps.len(),
{
    if ps.len() == 0 {
        known
    } else {
        let e = with_new(known, ps.drop_last());
        if e.contains(ps.last()) {
            e
        } else {
            e.push(ps.last())
        }
    }
}

/// The parent ids `f` answers for commit `c`, where it answers with a
/// list (empty otherwise).
pub open spec fn answer<F: Fn(CommitId) -> Option<Vec<CommitId>>>(f: F, c: Seq<u8>) -> Seq<Seq<u8>> {
    if exists|x: CommitId, v: Vec<CommitId>| #[trigger] f.ensures((x,), Some(v)) && x@ == c {
        let (x, v) = choose|x: CommitId, v: Vec<CommitId>| #[trigger] f.ensures((x,), Some(v)) && x@ == c;
        id_views(v@)
    } else {
        Seq::empty()
    }
}

/// The breadth-first listing from `a` once its first `i` commits have had
/// their parents appended, in stored order, each commit once.
pub open spec fn bfs_list<F: Fn(CommitId) -> Option<Vec<CommitId>>>(f: F, a: Seq<u8>, i: nat) -> Seq<Seq<u8>>
    decreases i,
{
    if i == 0 {
        seq![a]
    } else {
        let q = bfs_list(f, a, (i - 1) as nat);
        if i - 1 < q.len() {
            with_new(q, answer(f, q[i - 1]))
        } else {
            q
        }
    }
}

/// The parent ids a lookup answered, if it answered.
pub open spec fn opt_ids(r: Option<Vec<CommitId>>) -> Option<Seq<Seq<u8>>> {
    match r {
        Some(v) => Some(id_views(v@)),
        None => None,
    }
}

/// `f` gives the same answer whenever it is asked about the same commit.
pub open spec fn answers_fixed<F: Fn(CommitId) -> Option<Vec<CommitId>>>(f: F) -> bool {
    forall|c1: CommitId, c2: CommitId, r1: Option<Vec<CommitId>>, r2: Option<Vec<CommitId>>|
        #![trigger f.ensures((c1,), r1), f.ensures((c2,), r2)]
        c1@ == c2@ && f.ensures((c1,), r1) && f.ensures((c2,), r2) ==> opt_ids(r1) == opt_ids(r2)
}

/// Each of the first `n` commits of `s` has its parents answered, and
/// every one of them is in `s`.
pub open spec fn closed_upto<F: Fn(CommitId) -> Option<Vec<CommitId>>>(f: F, s: Seq<Seq<u8>>, n: int) -> bool {
    forall|j: int, c: CommitId, ret: Option<Vec<CommitId>>|
        #![trigger s[j], f.ensures((c,), ret)]
        0 <= j < n && c@ == s[j] && f.ensures((c,), ret) ==> (ret matches Some(v) && forall|y: Seq<u8>|
            #[trigger] id_views(v@).contains(y) ==> s.contains(y))
}

/// A list closed under parents holds every ancestor of its members.
proof fn lemma_closed_holds_ancestors<F: Fn(CommitId) -> Option<Vec<CommitId>>>(
    f: F,
    s: Seq<Seq<u8>>,
    x: Seq<u8>,
    y: Seq<u8>,
)
    requires
        closed_upto(f, s, s.len() as int),
        s.contains(x),
        descends(f, x, y),
    ensures
        s.contains(y),
{
    let p = choose|p: Seq<Seq<u8>>|
        #![trigger p.len(), p[0], p.last()]
        p.len() >= 1 && p[0] == x && p.last() == y && forall|i: int|
            0 <= i < p.len() - 1 ==> #[trigger] parent_step(f, p, i);
    lemma_path_within(f, s, p, p.len() - 1);
}

proof fn lemma_path_within<F: Fn(CommitId) -> Option<Vec<CommitId>>>(
    f: F,
    s: Seq<Seq<u8>>,
    p: Seq<Seq<u8>>,
    k: int,
)
    requires
        closed_upto(f, s, s.len() as int),
        p.len() >= 1,
        s.contains(p[0]),
        forall|i: int| 0 <= i < p.len() - 1 ==> #[trigger] parent_step(f, p, i),
        0 <= k < p.len(),
    ensures
        s.contains(p[k]),
    decreases k,
{
    if k > 0 {
        lemma_path_within(f, s, p, k - 1);
        assert(parent_step(f, p, k - 1));
        let (c, ret) = choose|c: CommitId, ret: Option<Vec<CommitId>>|
            #![trigger f.ensures((c,), ret)]
            c@ == p[k - 1] && f.ensures((c,), ret) && (ret matches Some(v) && id_views(v@).contains(p[k]));
        let j = choose|j: int| 0 <= j < s.len() && s[j] == p[k - 1];
        assert(s[j] == c@);
        let v = ret.unwrap();
        assert(id_views(v@).contains(p[k]));
    }
}

/// What `with_new` builds holds what it started from and what it added.
proof fn lemma_with_new_holds(known: Seq<Seq<u8>>, ps: Seq<Seq<u8>>)
    ensures
        forall|y: Seq<u8>| known.contains(y) || ps.contains(y) ==> #[trigger] with_new(known, ps).contains(y),
    decreases ps.len(),
{
    if ps.len() > 0 {
        lemma_with_new_holds(known, ps.drop_last());
        let e = with_new(known, ps.drop_last());
        assert forall|y: Seq<u8>| known.contains(y) || ps.contains(y) implies #[trigger] with_new(known, ps).contains(y) by {
            if ps.contains(y) && y != ps.last() {
                let i = choose|i: int| 0 <= i < ps.len() && ps[i] == y;
                assert(ps.drop_last()[i] == y);
            }
            if !e.contains(ps.last()) {
                assert(e.push(ps.last())[e.len() as int] == ps.last());
                if e.contains(y) {
                    let i = choose|i: int| 0 <= i < e.len() && e[i] == y;
                    assert(e.push(ps.last())[i] == y);
                }
            }
        }
    }
}

/// Add `id`'s reported parents not yet in `out`, in their stored order.
fn extend_with_parents<F: Fn(CommitId) -> Option<Vec<CommitId>>>(
    out: &mut Vec<CommitId>,
    parents_of: &F,
    id: CommitId,
    Ghost(root): Ghost<Seq<u8>>,
) -> (ok: bool)
    requires
        forall|c: CommitId| parents_of.requires((c,)),
        descends(*parents_of, root, id@),
        forall|j: int| 0 <= j < old(out)@.len() ==> descends(*parents_of, root, #[trigger] old(out)@[j]@),
    ensures
        final(out)@.len() >= old(out)@.len(),
        forall|j: int| 0 <= j < old(out)@.len() ==> final(out)@[j] == old(out)@[j],
        forall|j: int| 0 <= j < final(out)@.len() ==> descends(*parents_of, root, #[trigger] final(out)@[j]@),
        ok ==> exists|ps: Vec<CommitId>|
            #![trigger parents_of.ensures((id,), Some(ps))]
            parents_of.ensures((id,), Some(ps)) && id_views(final(out)@) == with_new(
                id_views(old(out)@),
                id_views(ps@),
            ),
        !ok ==> parents_of.ensures((id,), None::<Vec<CommitId>>) && final(out)@ == old(out)@,
{
    let ps = match parents_of(id) {
        Some(ps) => ps,
        None => {
            return false;
        },
    };
    let ghost ret = Some(ps);
    proof {
        assert(id_views(ps@).take(0) =~= Seq::<Seq<u8>>::empty());
    }
    let mut k: usize = 0;
    while k < ps.len()
        invariant
            forall|c: CommitId| parents_of.requires((c,)),
            parents_of.ensures((id,), Some(ps)),
            descends(*parents_of, root, id@),
            k <= ps@.len(),
            final_len_ok(old(out)@, out@),
            forall|j: int| 0 <= j < out@.len() ==> descends(*parents_of, root, #[trigger] out@[j]@),
            id_views(out@) == with_new(id_views(old(out)@), id_views(ps@).take(k as int)),
        decreases ps@.len() - k,
    {
        let p = ps[k];
        proof {
            let t = id_views(ps@).take(k + 1);
            assert(t.drop_last() =~= id_views(ps@).take(k as int));
            assert(t.last() == p@);
        }
        if !holds_id(out, &p) {
            proof {
                assert(id_views(ps@)[k as int] == p@);
                assert(observed_parent(*parents_of, id@, p@)) by {
                    assert(parents_of.ensures((id,), Some(ps)));
                    assert(id_views(ps@).contains(p@));
                }
                lemma_descends_step(*parents_of, root, id@, p@);
            }
            let ghost before = out@;
            out.push(p);
            proof {
                assert(id_views(out@) =~= id_views(before).push(p@));
                assert forall|j: int| 0 <= j < out@.len() implies descends(*parents_of, root, #[trigger] out@[j]@) by {
                    if j < before.len() {
                        assert(out@[j] == before[j]);
                    }
                }
            }
        }
        k = k + 1;
    }
    proof {
        assert(id_views(ps@).take(ps@.len() as int) =~= id_views(ps@));
        assert(with_new(id_views(old(out)@), Seq::<Seq<u8>>::empty()) == id_views(old(out)@));
    }
    true
}

/// `now` extends `start`.
pub open spec fn final_len_ok(start: Seq<CommitId>, now: Seq<CommitId>) -> bool {
    now.len() >= start.len() && forall|j: int| 0 <= j < start.len() ==> now[j] == start[j]
}

/// The best common ancestor of two commits: the first commit reached by
/// breadth-first traversal from `a` (parents in stored order) that is also
/// reachable from `b`. `None` when a parent lookup fails or the histories
/// share no commit. Which commit is first, and that `None` means one of
/// those two, is stated for a `parents_of` that answers each commit the
/// same way whenever it is asked.
pub fn common_ancestor<F: Fn(CommitId) -> Option<Vec<CommitId>>>(a: CommitId, b: CommitId, parents_of: F) -> (r:
    Option<CommitId>)
    requires
        forall|c: CommitId| parents_of.requires((c,)),
    ensures
        a@ == b@ ==> r == Some(a),
        r matches Some(c) ==> descends(parents_of, a@, c@) && descends(parents_of, b@, c@),
        answers_fixed(parents_of) && r is None ==> (forall|c: Seq<u8>|
            !(descends(parents_of, a@, c) && descends(parents_of, b@, c))) || exists|c: CommitId|
            #![trigger parents_of.ensures((c,), None::<Vec<CommitId>>)]
            (descends(parents_of, a@, c@) || descends(parents_of, b@, c@)) && parents_of.ensures(
                (c,),
                None::<Vec<CommitId>>,
            ),
        r matches Some(c) ==> (answers_fixed(parents_of) && a@ != b@ ==> exists|i: nat|
            i < bfs_list(parents_of, a@, i).len() && #[trigger] bfs_list(parents_of, a@, i)[i as int] == c@
                && forall|j: int| 0 <= j < i ==> !descends(parents_of, b@, bfs_list(parents_of, a@, i)[j])),
{
    if commit_id_eq(&a, &b) {
        proof {
            lemma_descends_self(parents_of, a@);
        }
        return Some(a);
    }
    let mut from_b: Vec<CommitId> = Vec::new();
    from_b.push(b);
    proof {
        lemma_descends_self(parents_of, b@);
    }
    let mut i: usize = 0;
    while i < from_b.len()
        invariant
            forall|c: CommitId| parents_of.requires((c,)),
            a@ != b@,
            i <= from_b@.len(),
            from_b@.len() >= 1 && from_b@[0]@ == b@,
            forall|j: int| 0 <= j < from_b@.len() ==> descends(parents_of, b@, #[trigger] from_b@[j]@),
            answers_fixed(parents_of) ==> closed_upto(parents_of, id_views(from_b@), i as int),
        decreases usize::MAX - i,
    {
        let id = from_b[i];
        let ghost before = from_b@;
        proof {
            assert(descends(parents_of, b@, from_b@[i as int]@));
        }
        if !extend_with_parents(&mut from_b, &parents_of, id, Ghost(b@)) {
            return None;
        }
        proof {
            lemma_extended_closed(parents_of, before, from_b@, id, i as int);
        }
        i = i + 1;
    }
    let mut from_a: Vec<CommitId> = Vec::new();
    from_a.push(a);
    proof {
        lemma_descends_self(parents_of, a@);
    }
    let mut i: usize = 0;
    while i < from_a.len()
        invariant
            forall|c: CommitId| parents_of.requires((c,)),
            a@ != b@,
            i <= from_a@.len(),
            from_a@.len() >= 1 && from_a@[0]@ == a@,
            from_b@.len() >= 1 && from_b@[0]@ == b@,
            forall|j: int| 0 <= j < from_a@.len() ==> descends(parents_of, a@, #[trigger] from_a@[j]@),
            forall|j: int| 0 <= j < from_b@.len() ==> descends(parents_of, b@, #[trigger] from_b@[j]@),
            answers_fixed(parents_of) ==> closed_upto(parents_of, id_views(from_b@), from_b@.len() as int),
            answers_fixed(parents_of) ==> closed_upto(parents_of, id_views(from_a@), i as int),
            forall|j: int| 0 <= j < i ==> !id_views(from_b@).contains(#[trigger] from_a@[j]@),
            answers_fixed(parents_of) ==> id_views(from_a@) == bfs_list(parents_of, a@, i as nat),
        decreases usize::MAX - i,
    {
        let id = from_a[i];
        let ghost before = from_a@;
        proof {
            assert(descends(parents_of, a@, from_a@[i as int]@));
        }
        if holds_id(&from_b, &id) {
            proof {
                let j = choose|j: int| 0 <= j < id_views(from_b@).len() && id_views(from_b@)[j] == id@;
                assert(descends(parents_of, b@, from_b@[j]@));
                if answers_fixed(parents_of) {
                    let q = bfs_list(parents_of, a@, i as nat);
                    assert(q[i as int] == id@);
                    assert forall|j: int| 0 <= j < i implies !descends(parents_of, b@, q[j]) by {
                        assert(q[j] == from_a@[j]@);
                        if descends(parents_of, b@, q[j]) {
                            assert(id_views(from_b@)[0] == b@);
                            lemma_closed_holds_ancestors(parents_of, id_views(from_b@), b@, q[j]);
                        }
                    }
                }
            }
            return Some(id);
        }
        if !extend_with_parents(&mut from_a, &parents_of, id, Ghost(a@)) {
            return None;
        }
        proof {
            lemma_extended_closed(parents_of, before, from_a@, id, i as int);
            lemma_extended_bfs(parents_of, before, from_a@, id, i as int, a@);
            assert forall|j: int| 0 <= j < i + 1 implies !id_views(from_b@).contains(#[trigger] from_a@[j]@) by {
                assert(from_a@[j] == before[j]);
            }
        }
        i = i + 1;
    }
    proof {
        if answers_fixed(parents_of) {
            let sa = id_views(from_a@);
            let sb = id_views(from_b@);
            assert(sa[0] == a@);
            assert(sb[0] == b@);
            assert forall|c: Seq<u8>| !(descends(parents_of, a@, c) && descends(parents_of, b@, c)) by {
                if descends(parents_of, a@, c) && descends(parents_of, b@, c) {
                    lemma_closed_holds_ancestors(parents_of, sa, a@, c);
                    lemma_closed_holds_ancestors(parents_of, sb, b@, c);
                    let j = choose|j: int| 0 <= j < sa.len() && sa[j] == c;
                    assert(from_a@[j]@ == c);
                }
            }
        }
    }
    None
}

/// Adding the parents of the commit at position `i` of the breadth-first
/// listing gives the next listing.
proof fn lemma_extended_bfs<F: Fn(CommitId) -> Option<Vec<CommitId>>>(
    f: F,
    before: Seq<CommitId>,
    after: Seq<CommitId>,
    id: CommitId,
    i: int,
    a: Seq<u8>,
)
    requires
        0 <= i < before.len(),
        before[i] == id,
        exists|ps: Vec<CommitId>|
            #![trigger f.ensures((id,), Some(ps))]
            f.ensures((id,), Some(ps)) && id_views(after) == with_new(id_views(before), id_views(ps@)),
        answers_fixed(f) ==> id_views(before) == bfs_list(f, a, i as nat),
    ensures
        answers_fixed(f) ==> id_views(after) == bfs_list(f, a, (i + 1) as nat),
{
    if answers_fixed(f) {
        let ps = choose|ps: Vec<CommitId>|
            #![trigger f.ensures((id,), Some(ps))]
            f.ensures((id,), Some(ps)) && id_views(after) == with_new(id_views(before), id_views(ps@));
        let q = bfs_list(f, a, i as nat);
        assert(q[i] == id@);
        let (x, v) = choose|x: CommitId, v: Vec<CommitId>| #[trigger] f.ensures((x,), Some(v)) && x@ == id@;
        assert(opt_ids(Some(v)) == opt_ids(Some(ps)));
        assert(answer(f, id@) == id_views(ps@));
        assert(bfs_list(f, a, (i + 1) as nat) == with_new(q, answer(f, q[i])));
    }
}

/// After `id`, the commit at position `i`, has its parents added, the list
/// is closed up to position `i + 1`.
proof fn lemma_extended_closed<F: Fn(CommitId) -> Option<Vec<CommitId>>>(
    f: F,
    before: Seq<CommitId>,
    after: Seq<CommitId>,
    id: CommitId,
    i: int,
)
    requires
        0 <= i < before.len(),
        before[i] == id,
        after.len() >= before.len(),
        forall|j: int| 0 <= j < before.len() ==> after[j] == before[j],
        exists|ps: Vec<CommitId>|
            #![trigger f.ensures((id,), Some(ps))]
            f.ensures((id,), Some(ps)) && id_views(after) == with_new(id_views(before), id_views(ps@)),
        answers_fixed(f) ==> closed_upto(f, id_views(before), i),
    ensures
        answers_fixed(f) ==> closed_upto(f, id_views(after), i + 1),
{
    if answers_fixed(f) {
        let ps = choose|ps: Vec<CommitId>|
            #![trigger f.ensures((id,), Some(ps))]
            f.ensures((id,), Some(ps)) && id_views(after) == with_new(id_views(before), id_views(ps@));
        let sb = id_views(before);
        let sa = id_views(after);
        lemma_with_new_holds(sb, id_views(ps@));
        assert forall|j: int, c: CommitId, ret: Option<Vec<CommitId>>|
            #![trigger sa[j], f.ensures((c,), ret)]
            0 <= j < i + 1 && c@ == sa[j] && f.ensures((c,), ret) implies (ret matches Some(v)
                && forall|y: Seq<u8>| #[trigger] id_views(v@).contains(y) ==> sa.contains(y)) by {
            assert(sa[j] == sb[j]);
            if j < i {
                assert(closed_upto(f, sb, i));
                assert(ret matches Some(v) && forall|y: Seq<u8>| #[trigger] id_views(v@).contains(y) ==> sb.contains(y));
            } else {
                assert(sb[j] == id@);
                assert(opt_ids(ret) == opt_ids(Some(ps)));
            }
        }
    }
}

/// Whether the history of `tip` holds `x`: `Some(true)` when `x` is `tip`
/// or reached through parent lists, `Some(false)` when the whole history
/// was read without meeting it, `None` when a parent lookup fails.
pub fn history_contains<F: Fn(CommitId) -> Option<Vec<CommitId>>>(tip: CommitId, x: CommitId, parents_of: &F) -> (r:
    Option<bool>)
    requires
        forall|c: CommitId| parents_of.requires((c,)),
    ensures
        tip@ == x@ ==> r == Some(true),
        r == Some(true) ==> descends(*parents_of, tip@, x@),
        answers_fixed(*parents_of) && r == Some(false) ==> !descends(*parents_of, tip@, x@),
        r is None ==> exists|c: CommitId|
            #![trigger parents_of.ensures((c,), None::<Vec<CommitId>>)]
            descends(*parents_of, tip@, c@) && parents_of.ensures((c,), None::<Vec<CommitId>>),
{
    proof {
        lemma_descends_self(*parents_of, tip@);
    }
    if commit_id_eq(&tip, &x) {
        return Some(true);
    }
    let mut seen: Vec<CommitId> = Vec::new();
    seen.push(tip);
    let mut i: usize = 0;
    while i < seen.len()
        invariant
            forall|c: CommitId| parents_of.requires((c,)),
            tip@ != x@,
            i <= seen@.len(),
            seen@.len() >= 1 && seen@[0]@ == tip@,
            forall|j: int| 0 <= j < seen@.len() ==> descends(*parents_of, tip@, #[trigger] seen@[j]@),
            answers_fixed(*parents_of) ==> closed_upto(*parents_of, id_views(seen@), i as int),
        decreases usize::MAX - i,
    {
        let id = seen[i];
        let ghost before = seen@;
        proof {
            assert(descends(*parents_of, tip@, seen@[i as int]@));
        }
        if !extend_with_parents(&mut seen, parents_of, id, Ghost(tip@)) {
            return None;
        }
        proof {
            lemma_extended_closed(*parents_of, before, seen@, id, i as int);
        }
        i = i + 1;
    }
    let found = holds_id(&seen, &x);
    proof {
        if found {
            let j = choose|j: int| 0 <= j < id_views(seen@).len() && id_views(seen@)[j] == x@;
            assert(descends(*parents_of, tip@, seen@[j]@));
        } else if answers_fixed(*parents_of) {
            assert(id_views(seen@)[0] == tip@);
            if descends(*parents_of, tip@, x@) {
                lemma_closed_holds_ancestors(*parents_of, id_views(seen@), tip@, x@);
            }
        }
    }
    Some(found)
}

} // verus!
