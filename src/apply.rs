use vstd::prelude::*;
use crate::pane::Pane;

verus! {

/// Some row lists pane `i`.
pub open spec fn in_some_row(rows: Seq<Vec<usize>>, i: int) -> bool {
    exists|k: int| 0 <= k < rows.len() && (#[trigger] rows[k])@.contains(i as usize)
}

/// `p` moved to the solved horizontal position `v.0` with the solved width
/// `v.1`; its identity, vertical extent and sizing mode stay.
pub open spec fn resized(p: Pane, v: (i64, i64)) -> Pane {
    Pane { pos: (v.0, p.pos.1), size: (v.1, p.size.1), ..p }
}

/// Writes the solved values back: pane `i` of the snapshot takes position
/// `sol[i].0` and width `sol[i].1` when some row holds it, and is returned
/// unchanged otherwise. The result lists the panes in snapshot order.
pub fn apply_solution(panes: &Vec<Pane>, rows: &Vec<Vec<usize>>, sol: &Vec<(i64, i64)>) -> (out: Vec<Pane>)
    requires
        sol.len() == panes.len(),
    ensures
        out.len() == panes.len(),
        forall|i: int| 0 <= i < panes.len() ==> #[trigger] out@[i] == if in_some_row(rows@, i) {
            resized(panes@[i], sol@[i])
        } else {
            panes@[i]
        },
{
    let n = panes.len();
    let mut placed: Vec<bool> = Vec::new();
    while placed.len() < n
        invariant
            placed.len() <= n,
            forall|i: int| 0 <= i < placed.len() ==> !(#[trigger] placed@[i]),
        decreases n - placed.len(),
    {
        placed.push(false);
    }
    let mut k: usize = 0;
    while k < rows.len()
        invariant
            k <= rows.len(),
            placed.len() == n,
            forall|i: int| 0 <= i < n ==> (#[trigger] placed@[i] <==> exists|m: int| 0 <= m < k && (#[trigger] rows@[m])@.contains(i as usize)),
        decreases rows.len() - k,
    {
        let row = &rows[k];
        let mut j: usize = 0;
        while j < row.len()
            invariant
                k < rows.len(),
                row == &rows@[k as int],
                j <= row.len(),
                placed.len() == n,
                forall|i: int| 0 <= i < n ==> (#[trigger] placed@[i] <==> (exists|m: int| 0 <= m < k && (#[trigger] rows@[m])@.contains(i as usize))
                    || exists|t: int| 0 <= t < j && row@[t] == i as usize),
            decreases row.len() - j,
        {
            let i = row[j];
            if i < n {
                placed.set(i, true);
            }
            j = j + 1;
        }
        assert forall|i: int| 0 <= i < n implies (#[trigger] placed@[i] <==> exists|m: int| 0 <= m < k + 1 && (#[trigger] rows@[m])@.contains(i as usize)) by {
            if exists|t: int| 0 <= t < row.len() && row@[t] == i as usize {
                assert(rows@[k as int]@.contains(i as usize));
            }
            if exists|m: int| 0 <= m < k + 1 && (#[trigger] rows@[m])@.contains(i as usize) {
                let m = choose|m: int| 0 <= m < k + 1 && (#[trigger] rows@[m])@.contains(i as usize);
                if m == k {
                    let t = choose|t: int| 0 <= t < row.len() && row@[t] == i as usize;
                }
            }
        }
        k = k + 1;
    }
    let mut out: Vec<Pane> = Vec::new();
    let mut i: usize = 0;
    while i < n
        invariant
            i <= n,
            n == panes.len(),
            sol.len() == n,
            placed.len() == n,
            out.len() == i,
            forall|t: int| 0 <= t < n ==> (#[trigger] placed@[t] <==> in_some_row(rows@, t)),
            forall|t: int| 0 <= t < i ==> #[trigger] out@[t] == if in_some_row(rows@, t) {
                resized(panes@[t], sol@[t])
            } else {
                panes@[t]
            },
        decreases n - i,
    {
        let p = panes[i];
        if placed[i] {
            let v = sol[i];
            out.push(Pane { pos: (v.0, p.pos.1), size: (v.1, p.size.1), ..p });
        } else {
            out.push(p);
        }
        i = i + 1;
    }
    out
}

/// The index of the first pane of `updated` with identity `id`, if any.
pub open spec fn first_with_id(updated: Seq<Pane>, id: u32) -> Option<int>
    decreases updated.len(),
{
    if updated.len() == 0 {
        None
    } else {
        match first_with_id(updated.drop_last(), id) {
            Some(j) => Some(j),
            None => if updated.last().id == id { Some(updated.len() - 1) } else { None },
        }
    }
}

/// Matches updated panes to the live ones by identity: each live pane is
/// replaced by the first updated pane with its `id`. Where some live pane has
/// no counterpart, nothing is replaced and the result is `None`.
pub fn update_by_id(live: &Vec<Pane>, updated: &Vec<Pane>) -> (r: Option<Vec<Pane>>)
    ensures
        r is Some <==> forall|i: int| 0 <= i < live.len() ==> first_with_id(updated@, (#[trigger] live@[i]).id) is Some,
        r matches Some(out) ==> out.len() == live.len() && forall|i: int| 0 <= i < live.len()
            ==> #[trigger] out@[i] == updated@[first_with_id(updated@, live@[i].id)->Some_0],
{
    let mut out: Vec<Pane> = Vec::new();
    let mut i: usize = 0;
    while i < live.len()
        invariant
            i <= live.len(),
            out.len() == i,
            forall|t: int| 0 <= t < i ==> first_with_id(updated@, (#[trigger] live@[t]).id) is Some,
            forall|t: int| 0 <= t < i ==> #[trigger] out@[t] == updated@[first_with_id(updated@, live@[t].id)->Some_0],
        decreases live.len() - i,
    {
        let id = live[i].id;
        let mut j: usize = 0;
        let mut found: Option<usize> = None;
        while found.is_none() && j < updated.len()
            invariant
                j <= updated.len(),
                found matches Some(f) ==> f < updated.len() && first_with_id(updated@, id) == Some(f as int),
                found is None ==> first_with_id(updated@.subrange(0, j as int), id) is None,
            decreases updated.len() - j + if found is None { 1int } else { 0int },
        {
            proof {
                lemma_first_with_id_prefix(updated@, id, j as int);
            }
            if updated[j].id == id {
                found = Some(j);
            } else {
                assert(updated@.subrange(0, j + 1).drop_last() =~= updated@.subrange(0, j as int));
                j = j + 1;
            }
        }
        match found {
            None => {
                proof {
                    assert(updated@.subrange(0, updated.len() as int) =~= updated@);
                    assert(first_with_id(updated@, live@[i as int].id) is None);
                }
                return None;
            },
            Some(f) => {
                out.push(updated[f]);
            },
        }
        i = i + 1;
    }
    Some(out)
}

/// Where no pane of `s` before `j` has the identity, the first one with it
/// in `s` is the first one with it in `s[j..]` shifted by `j`; where one
/// does, it is the same as in any longer prefix.
proof fn lemma_first_with_id_prefix(s: Seq<Pane>, id: u32, j: int)
    requires
        0 <= j <= s.len(),
    ensures
        first_with_id(s.subrange(0, j), id) matches Some(f) ==> first_with_id(s, id) == Some(f),
        first_with_id(s.subrange(0, j), id) is None && j < s.len() && s[j].id == id ==> first_with_id(s, id) == Some(j),
    decreases s.len() - j,
{
    if j < s.len() {
        lemma_first_with_id_prefix(s, id, j + 1);
        assert(s.subrange(0, j + 1).drop_last() =~= s.subrange(0, j));
    } else {
        assert(s.subrange(0, j) =~= s);
    }
}

} // verus!
