//! Merging the two stages' live uniform lists into one ordered table.
//!
//! The merged table is the vertex stage's live uniforms followed by every
//! pixel-stage live uniform whose name is not already present; on a name
//! collision the vertex-declared variant is kept and the pixel one dropped.
//! This order is the binary serialization order, and each stage's reference
//! list holds the position of each of its live uniforms in this table.

use vstd::assert_by_contradiction;
use vstd::prelude::*;

use crate::errors::KshError;
use crate::strutil::string_eq;
use crate::types::{views_of, VarView, Variable};

verus! {

/// True when some record of the sequence bears the name.
pub open spec fn seq_contains_name(s: Seq<VarView>, n: Seq<char>) -> bool {
    exists|i: int| 0 <= i < s.len() && s[i].name == n
}

/// The merged table: the vertex list, then each pixel record in order
/// whose name the table does not already hold.
pub open spec fn spec_merge(vs: Seq<VarView>, ps: Seq<VarView>) -> Seq<VarView>
    decreases ps,
{
    if ps.len() == 0 {
        vs
    } else {
        let m = spec_merge(vs, ps.drop_last());
        if seq_contains_name(m, ps.last().name) {
            m
        } else {
            m.push(ps.last())
        }
    }
}

/// The position of the first record bearing the name.
pub open spec fn first_index_of(s: Seq<VarView>, n: Seq<char>) -> int
    recommends
        seq_contains_name(s, n),
    decreases s,
{
    if s.len() == 0 {
        0
    } else if s[0].name == n {
        0
    } else {
        1 + first_index_of(s.drop_first(), n)
    }
}

/// Each live record's position in the merged table.
pub open spec fn spec_resolve(live: Seq<VarView>, merged: Seq<VarView>) -> Seq<u32> {
    Seq::new(live.len(), |i: int| first_index_of(merged, live[i].name) as u32)
}

/// The merged table starts with the vertex list unchanged, and everything
/// after it is a pixel record whose name no vertex record bears.
pub proof fn lemma_merge_structure(vs: Seq<VarView>, ps: Seq<VarView>)
    ensures
        spec_merge(vs, ps).len() >= vs.len(),
        spec_merge(vs, ps).subrange(0, vs.len() as int) == vs,
        forall|k: int|
            vs.len() <= k < spec_merge(vs, ps).len() ==> ps.contains(
                #[trigger] spec_merge(vs, ps)[k],
            ) && !seq_contains_name(vs, spec_merge(vs, ps)[k].name),
    decreases ps,
{
    if ps.len() == 0 {
        assert(spec_merge(vs, ps).subrange(0, vs.len() as int) =~= vs);
    } else {
        lemma_merge_structure(vs, ps.drop_last());
        let m = spec_merge(vs, ps.drop_last());
        assert(forall|k: int|
            0 <= k < ps.drop_last().len() ==> ps.drop_last()[k] == #[trigger] ps[k]);
        assert(ps.contains(ps.last()));
        if !seq_contains_name(m, ps.last().name) {
            assert(m.push(ps.last()).subrange(0, vs.len() as int) =~= m.subrange(
                0,
                vs.len() as int,
            ));
            assert forall|j: int| 0 <= j < vs.len() implies vs[j].name != ps.last().name by {
                assert(m.subrange(0, vs.len() as int)[j] == m[j]);
            }
        }
    }
}

/// The merged table has no more records than the two lists together.
pub proof fn lemma_merge_len(vs: Seq<VarView>, ps: Seq<VarView>)
    ensures
        spec_merge(vs, ps).len() <= vs.len() + ps.len(),
    decreases ps,
{
    if ps.len() > 0 {
        lemma_merge_len(vs, ps.drop_last());
    }
}

/// A name borne by a vertex or a pixel record is borne by a merged record.
pub proof fn lemma_merge_covers(vs: Seq<VarView>, ps: Seq<VarView>, n: Seq<char>)
    requires
        seq_contains_name(vs, n) || seq_contains_name(ps, n),
    ensures
        seq_contains_name(spec_merge(vs, ps), n),
    decreases ps,
{
    lemma_merge_structure(vs, ps);
    let m = spec_merge(vs, ps);
    if seq_contains_name(vs, n) {
        let i = choose|i: int| 0 <= i < vs.len() && vs[i].name == n;
        assert(m.subrange(0, vs.len() as int)[i] == m[i]);
    } else {
        let i = choose|i: int| 0 <= i < ps.len() && ps[i].name == n;
        if i == ps.len() - 1 {
            let m0 = spec_merge(vs, ps.drop_last());
            if seq_contains_name(m0, n) {
                lemma_merge_grows(vs, ps);
            } else {
                assert(m[m.len() - 1].name == n);
            }
        } else {
            assert(ps.drop_last()[i].name == n);
            lemma_merge_covers(vs, ps.drop_last(), n);
            lemma_merge_grows(vs, ps);
        }
    }
}

/// Every name the partial merge holds, the full merge holds too.
proof fn lemma_merge_grows(vs: Seq<VarView>, ps: Seq<VarView>)
    requires
        ps.len() > 0,
    ensures
        forall|n: Seq<char>|
            seq_contains_name(spec_merge(vs, ps.drop_last()), n) ==> seq_contains_name(
                spec_merge(vs, ps),
                n,
            ),
{
    let m0 = spec_merge(vs, ps.drop_last());
    let m = spec_merge(vs, ps);
    assert forall|n: Seq<char>| seq_contains_name(m0, n) implies seq_contains_name(m, n) by {
        let i = choose|i: int| 0 <= i < m0.len() && m0[i].name == n;
        if m != m0 {
            assert(m[i] == m0[i]);
        }
    }
}

/// A merged record bearing a vertex-declared name stands in the vertex
/// prefix of the table: the vertex variant is what the table keeps.
pub proof fn lemma_merge_keeps_vertex_variant(vs: Seq<VarView>, ps: Seq<VarView>, k: int)
    requires
        0 <= k < spec_merge(vs, ps).len(),
        seq_contains_name(vs, spec_merge(vs, ps)[k].name),
    ensures
        k < vs.len(),
        spec_merge(vs, ps)[k] == vs[k],
    decreases ps,
{
    lemma_merge_structure(vs, ps);
    assert(spec_merge(vs, ps).subrange(0, vs.len() as int)[k] == spec_merge(vs, ps)[k]);
}

/// True when some record of the list bears exactly the given name.
fn contains_var_name(s: &Vec<Variable>, name: &String) -> (r: bool)
    ensures
        r == seq_contains_name(views_of(s@), name@),
{
    let n = s.len();
    let mut i: usize = 0;
    while i < n
        invariant
            i <= n,
            forall|j: int| 0 <= j < i ==> views_of(s@)[j].name != name@,
        decreases n - i,
    {
        if string_eq(&s[i].name, name) {
            proof {
                assert(views_of(s@)[i as int].name == name@);
            }
            return true;
        }
        i = i + 1;
    }
    false
}

/// Joins the two stages' live uniform lists: the vertex list first, then
/// each pixel record whose name the table does not already hold.
pub fn merge_uniforms(vs: &Vec<Variable>, ps: &Vec<Variable>) -> (r: Vec<Variable>)
    ensures
        views_of(r@) == spec_merge(views_of(vs@), views_of(ps@)),
{
    let mut out: Vec<Variable> = Vec::new();
    let n = vs.len();
    let mut i: usize = 0;
    while i < n
        invariant
            i <= n,
            views_of(out@) == views_of(vs@).subrange(0, i as int),
        decreases n - i,
    {
        let ghost prev = views_of(out@);
        out.push(vs[i].duplicate());
        proof {
            assert(views_of(out@) =~= prev.push(vs@[i as int]@));
            assert(views_of(out@) =~= views_of(vs@).subrange(0, i + 1));
        }
        i = i + 1;
    }
    proof {
        assert(views_of(vs@).subrange(0, n as int) =~= views_of(vs@));
        assert(views_of(ps@).subrange(0, 0) =~= Seq::<VarView>::empty());
    }
    let m = ps.len();
    let mut j: usize = 0;
    while j < m
        invariant
            j <= m,
            views_of(out@) == spec_merge(views_of(vs@), views_of(ps@).subrange(0, j as int)),
        decreases m - j,
    {
        let ghost prev = views_of(out@);
        let ghost pre = views_of(ps@).subrange(0, j as int);
        let ghost post = views_of(ps@).subrange(0, j + 1);
        let present = contains_var_name(&out, &ps[j].name);
        if !present {
            out.push(ps[j].duplicate());
            proof {
                assert(views_of(out@) =~= prev.push(views_of(ps@)[j as int]));
            }
        }
        proof {
            assert(post.drop_last() =~= pre);
            assert(post.last() == views_of(ps@)[j as int]);
            assert(views_of(out@) =~= spec_merge(views_of(vs@), post));
        }
        j = j + 1;
    }
    proof {
        assert(views_of(ps@).subrange(0, m as int) =~= views_of(ps@));
    }
    out
}

/// With a clean prefix, the first match decides the resolved position.
proof fn lemma_first_index_at(s: Seq<VarView>, n: Seq<char>, i: int)
    requires
        0 <= i < s.len(),
        s[i].name == n,
        forall|j: int| 0 <= j < i ==> (#[trigger] s[j]).name != n,
    ensures
        first_index_of(s, n) == i,
    decreases i,
{
    if i > 0 {
        let t = s.drop_first();
        assert(forall|j: int| 0 <= j < i - 1 ==> (#[trigger] t[j]).name == s[j + 1].name);
        lemma_first_index_at(t, n, i - 1);
    }
}

/// Resolves each live record to its position in the merged table.  Absence
/// from the table is an internal inconsistency: the merge's construction
/// makes it unreachable, but it is checked rather than trusted.
pub fn resolve_indices(live: &Vec<Variable>, merged: &Vec<Variable>) -> (r: Result<
    Vec<u32>,
    KshError,
>)
    requires
        merged@.len() <= u32::MAX,
    ensures
        r is Ok <==> (forall|i: int|
            0 <= i < live@.len() ==> seq_contains_name(
                views_of(merged@),
                (#[trigger] views_of(live@)[i]).name,
            )),
        r matches Ok(v) ==> v@ == spec_resolve(views_of(live@), views_of(merged@)),
        r matches Err(e) ==> e == KshError::InternalInconsistency,
{
    let mut out: Vec<u32> = Vec::new();
    let n = live.len();
    let mut i: usize = 0;
    while i < n
        invariant
            i <= n,
            out@.len() == i,
            forall|k: int|
                0 <= k < i ==> seq_contains_name(
                    views_of(merged@),
                    (#[trigger] views_of(live@)[k]).name,
                ),
            forall|k: int|
                0 <= k < i ==> out@[k] == first_index_of(
                    views_of(merged@),
                    (#[trigger] views_of(live@)[k]).name,
                ) as u32,
        decreases n - i,
    {
        let name = &live[i].name;
        let m = merged.len();
        let mut j: usize = 0;
        let mut found = false;
        let mut pos: u32 = 0;
        while j < m && !found
            invariant
                j <= m,
                !found ==> forall|k: int|
                    0 <= k < j ==> (#[trigger] views_of(merged@)[k]).name != name@,
                found ==> j > 0 && views_of(merged@)[j - 1].name == name@ && pos == j - 1
                    && (forall|k: int|
                    0 <= k < j - 1 ==> (#[trigger] views_of(merged@)[k]).name != name@),
            decreases m - j,
        {
            if string_eq(&merged[j].name, name) {
                found = true;
                pos = j as u32;
            }
            j = j + 1;
        }
        if !found {
            proof {
                assert(!seq_contains_name(views_of(merged@), views_of(live@)[i as int].name));
            }
            return Err(KshError::InternalInconsistency);
        }
        proof {
            lemma_first_index_at(views_of(merged@), name@, j - 1);
            assert(seq_contains_name(views_of(merged@), views_of(live@)[i as int].name));
        }
        out.push(pos);
        i = i + 1;
    }
    proof {
        assert(out@ =~= spec_resolve(views_of(live@), views_of(merged@)));
    }
    Ok(out)
}

/// Where the name occurs, its first position is a real position bearing
/// the name, with no earlier record bearing it.
pub proof fn lemma_first_index_properties(s: Seq<VarView>, n: Seq<char>)
    requires
        seq_contains_name(s, n),
    ensures
        0 <= first_index_of(s, n) < s.len(),
        s[first_index_of(s, n)].name == n,
        forall|j: int| 0 <= j < first_index_of(s, n) ==> (#[trigger] s[j]).name != n,
    decreases s,
{
    if s[0].name != n {
        let t = s.drop_first();
        let i = choose|i: int| 0 <= i < s.len() && s[i].name == n;
        assert(t[i - 1].name == n);
        lemma_first_index_properties(t, n);
        assert(first_index_of(s, n) == 1 + first_index_of(t, n));
        assert(s[first_index_of(s, n)] == t[first_index_of(t, n)]);
        assert forall|j: int|
            0 <= j < first_index_of(s, n) implies (#[trigger] s[j]).name != n by {
            if j > 0 {
                assert(s[j] == t[j - 1]);
                assert(t[j - 1].name != n);
            }
        }
    }
}

/// Law: each resolved reference lies inside the table and points at a
/// record bearing the name of the live record it resolves.
pub proof fn lemma_resolve_indices_valid(live: Seq<VarView>, merged: Seq<VarView>)
    requires
        merged.len() <= u32::MAX,
        forall|k: int|
            0 <= k < live.len() ==> seq_contains_name(merged, (#[trigger] live[k]).name),
    ensures
        forall|k: int|
            0 <= k < live.len() ==> {
                let idx = #[trigger] spec_resolve(live, merged)[k] as int;
                0 <= idx < merged.len() && merged[idx].name == live[k].name
            },
{
    assert forall|k: int| 0 <= k < live.len() implies {
        let idx = #[trigger] spec_resolve(live, merged)[k] as int;
        0 <= idx < merged.len() && merged[idx].name == live[k].name
    } by {
        lemma_first_index_properties(merged, live[k].name);
        assert(spec_resolve(live, merged)[k] == first_index_of(merged, live[k].name) as u32);
    }
}

/// Law: a uniform name mentioned inside no function body of either stage
/// is absent from the merged table.
pub proof fn lemma_unused_uniform_absent(
    vs_tree: crate::ast::TranslationUnit,
    ps_tree: crate::ast::TranslationUnit,
    n: Seq<char>,
)
    requires
        !crate::analyzer::tu_uses(vs_tree).contains(n),
        !crate::analyzer::tu_uses(ps_tree).contains(n),
    ensures
        !seq_contains_name(
            spec_merge(
                crate::analyzer::live_views(vs_tree),
                crate::analyzer::live_views(ps_tree),
            ),
            n,
        ),
{
    let vl = crate::analyzer::live_views(vs_tree);
    let pl = crate::analyzer::live_views(ps_tree);
    crate::analyzer::lemma_unused_uniform_not_live(vs_tree, n);
    crate::analyzer::lemma_unused_uniform_not_live(ps_tree, n);
    lemma_merge_structure(vl, pl);
    let m = spec_merge(vl, pl);
    assert_by_contradiction!(!seq_contains_name(m, n), {
        let k = choose|k: int| 0 <= k < m.len() && m[k].name == n;
        if k < vl.len() {
            assert(m.subrange(0, vl.len() as int)[k] == m[k]);
            assert(vl[k].name != n);
        } else {
            let j = choose|j: int| 0 <= j < pl.len() && pl[j] == m[k];
            assert(pl[j].name != n);
        }
    });
}

} // verus!
