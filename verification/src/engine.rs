//! The greedy assignment engine and its swap resolver.
//!
//! The engine walks the participants in list order. For each one it reads
//! the still-`Linked` receivers from the exclusion graph, picks one with a
//! draw, records the pair and unlinks the chosen receiver for every
//! remaining row. When a row has no `Linked` receiver left, the swap
//! resolver exchanges receivers with an already-assigned participant.
//!
//! The whole run is modelled, step by step, by the spec functions below
//! over participant positions: `run_from` folds `step` over the rows, so
//! the executable engine's result is pinned to a function of the
//! participant list, the partner map and the draw sequence alone.

use crate::graph::{build_graph, get_linked_edges, get_map_val, lookup, linked_up_to, spec_unlinked, Config, Edge};
use crate::random::rand_below;
use vstd::prelude::*;

verus! {

/// Why a run was refused or abandoned.
#[derive(Clone, Copy, PartialEq, Eq, Structural, Debug)]
pub enum AssignError {
    /// Fewer than two participants: no derangement exists and the swap
    /// resolver's random range would be empty.
    TooFewParticipants,
    /// A name occurs twice in the participant list.
    DuplicateName,
    /// A partner entry names somebody outside the participant list.
    UnknownPartner,
    /// The run ended without a complete, constraint-satisfying assignment.
    Unresolvable,
}

/// Two positions of the list carry the same name.
pub open spec fn spec_has_dup(names: Seq<String>) -> bool {
    exists|i: int, j: int| 0 <= i < j < names.len() && #[trigger] names[i]@ == #[trigger] names[j]@
}

/// Position i names an excluded partner (its partner-map entry is non-empty).
pub open spec fn partner_defined(names: Seq<String>, pm: Seq<(String, String)>, i: int) -> bool {
    lookup(pm, names[i]@) != Seq::<char>::empty()
}

/// Some participant's partner entry names nobody in the list.
pub open spec fn spec_unknown_partner(names: Seq<String>, pm: Seq<(String, String)>) -> bool {
    exists|i: int|
        0 <= i < names.len() && #[trigger] partner_defined(names, pm, i)
            && !(exists|j: int| 0 <= j < names.len() && #[trigger] names[j]@ == lookup(pm, names[i]@))
}

/// The position of participant i's excluded partner, when the partner
/// entry is non-empty and names a participant.
pub open spec fn spec_partner_idx(names: Seq<String>, pm: Seq<(String, String)>, i: int) -> Option<usize> {
    if partner_defined(names, pm, i)
        && exists|j: int| 0 <= j < names.len() && #[trigger] names[j]@ == lookup(pm, names[i]@) {
        Some(
            (choose|j: int| 0 <= j < names.len() && #[trigger] names[j]@ == lookup(pm, names[i]@)) as usize,
        )
    } else {
        None
    }
}

/// The partner position of every participant, in list order.
pub open spec fn spec_partner_seq(names: Seq<String>, pm: Seq<(String, String)>) -> Seq<Option<usize>> {
    Seq::new(names.len(), |i: int| spec_partner_idx(names, pm, i))
}

/// No participant declares an excluded partner.
pub open spec fn no_exclusions(names: Seq<String>, pm: Seq<(String, String)>) -> bool {
    forall|i: int| 0 <= i < names.len() ==> !partner_defined(names, pm, i)
}

/// The input is well-formed: at least two participants, no duplicate name,
/// and every non-empty partner entry names a participant.
pub open spec fn spec_ok_input(names: Seq<String>, pm: Seq<(String, String)>) -> bool {
    names.len() >= 2 && !spec_has_dup(names) && !spec_unknown_partner(names, pm)
}

/// The run's whole mutable state, at the level of participant positions:
/// the receiver recorded for each giver so far, the set of receivers the
/// greedy pass has unlinked, how many draws were consumed, and whether the
/// swap resolver was ever invoked for a giver whose partner had no
/// assignment to inherit (the one shape it cannot repair).
pub ghost struct RunState {
    pub recv: Seq<Option<usize>>,
    pub chosen: Set<usize>,
    pub pos: int,
    pub stuck: bool,
}

/// The state every run starts from: nothing assigned, nothing unlinked.
pub open spec fn init_state(n: int) -> RunState {
    RunState { recv: Seq::new(n as nat, |x: int| None), chosen: Set::empty(), pos: 0, stuck: false }
}

/// The draw consumed at position `pos` of the injected draw sequence; a
/// missing entry counts as zero.
pub open spec fn draw_at(draws: Seq<usize>, pos: int) -> usize {
    if 0 <= pos < draws.len() {
        draws[pos]
    } else {
        0
    }
}

/// Cell (i, j) of the mutated graph is still `Linked`: j is not i itself,
/// not i's excluded partner, and not a receiver the greedy pass has
/// already handed out.
pub open spec fn cell_open(partner: Seq<Option<usize>>, chosen: Set<usize>, i: int, j: int) -> bool {
    j != i && partner[i] != Some(j as usize) && !chosen.contains(j as usize)
}

/// The receivers still available to giver i among positions below `k`,
/// ascending: the spec twin of reading row i with `get_linked_edges`.
pub open spec fn avail_up_to(partner: Seq<Option<usize>>, chosen: Set<usize>, i: int, k: int) -> Seq<usize>
    decreases k,
{
    if k <= 0 {
        Seq::empty()
    } else if cell_open(partner, chosen, i, k - 1) {
        avail_up_to(partner, chosen, i, k - 1).push((k - 1) as usize)
    } else {
        avail_up_to(partner, chosen, i, k - 1)
    }
}

/// One engine iteration for giver i. With available receivers, the draw
/// picks one, it is recorded and unlinked everywhere. With none, the swap
/// resolver runs: a giver without a partner swaps with a participant drawn
/// from all positions but the last; a giver with a partner swaps with
/// whoever the partner gives to, and the run is stuck when the partner has
/// no assignment yet.
pub open spec fn step(n: int, partner: Seq<Option<usize>>, draws: Seq<usize>, st: RunState, i: int) -> RunState {
    let av = avail_up_to(partner, st.chosen, i, n);
    if av.len() > 0 {
        let j = av[draw_at(draws, st.pos) as int % av.len() as int];
        RunState {
            recv: st.recv.update(i, Some(j)),
            chosen: st.chosen.insert(j),
            pos: st.pos + 1,
            stuck: st.stuck,
        }
    } else {
        match partner[i] {
            Some(p) => match st.recv[p as int] {
                Some(t) => RunState {
                    recv: st.recv.update(t as int, Some(i as usize)).update(i, st.recv[t as int]),
                    chosen: st.chosen,
                    pos: st.pos,
                    stuck: st.stuck,
                },
                None => RunState { recv: st.recv, chosen: st.chosen, pos: st.pos, stuck: true },
            },
            None => {
                let d = draw_at(draws, st.pos) as int % (n - 1);
                RunState {
                    recv: st.recv.update(d, Some(i as usize)).update(i, st.recv[d]),
                    chosen: st.chosen,
                    pos: st.pos + 1,
                    stuck: st.stuck,
                }
            },
        }
    }
}

/// Folds `step` over givers i, i+1, ..., n-1, stopping early when a step
/// leaves the run stuck.
pub open spec fn run_from(n: int, partner: Seq<Option<usize>>, draws: Seq<usize>, st: RunState, i: int) -> RunState
    decreases n - i,
{
    if i < 0 || i >= n {
        st
    } else {
        let st2 = step(n, partner, draws, st, i);
        if st2.stuck {
            st2
        } else {
            run_from(n, partner, draws, st2, i + 1)
        }
    }
}

/// The state a whole run over the given input reaches.
pub open spec fn spec_final_state(names: Seq<String>, pm: Seq<(String, String)>, draws: Seq<usize>) -> RunState {
    run_from(
        names.len() as int,
        spec_partner_seq(names, pm),
        draws,
        init_state(names.len() as int),
        0,
    )
}

/// `o` holds a position below `n`.
pub open spec fn some_lt(o: Option<usize>, n: int) -> bool {
    match o {
        Some(j) => (j as int) < n,
        None => false,
    }
}

/// Some giver's recorded receiver is position `j`.
pub open spec fn is_received(recv: Seq<Option<usize>>, j: int) -> bool {
    exists|i: int| 0 <= i < recv.len() && #[trigger] recv[i] == Some(j as usize)
}

/// The recorded receivers form a derangement of the positions that also
/// avoids every excluded partner: total, receiver positions in range,
/// pairwise distinct, covering every position, never the giver itself and
/// never the giver's partner.
pub open spec fn valid_recv(partner: Seq<Option<usize>>, recv: Seq<Option<usize>>) -> bool {
    let n = recv.len() as int;
    &&& forall|i: int| 0 <= i < n ==> some_lt(#[trigger] recv[i], n)
    &&& forall|i1: int, i2: int| 0 <= i1 < i2 < n ==> recv[i1] != recv[i2]
    &&& forall|j: int| 0 <= j < n ==> #[trigger] is_received(recv, j)
    &&& forall|i: int| 0 <= i < n ==> #[trigger] recv[i] != Some(i as usize)
    &&& forall|i: int| 0 <= i < n ==> #[trigger] recv[i] != partner[i] || partner[i] is None
}

/// The whole run over the given input ends unstuck with a valid
/// derangement: exactly then does the engine hand an assignment out.
pub open spec fn spec_success(names: Seq<String>, pm: Seq<(String, String)>, draws: Seq<usize>) -> bool {
    let fs = spec_final_state(names, pm, draws);
    spec_ok_input(names, pm) && !fs.stuck && valid_recv(spec_partner_seq(names, pm), fs.recv)
}

/// Some output pair's receiver is the name at position `i` of the list.
pub open spec fn name_is_received(names: Seq<String>, out: Seq<(String, String)>, i: int) -> bool {
    exists|j: int| 0 <= j < out.len() && (#[trigger] out[j].1)@ == names[i]@
}

/// The output pairs, read at name level: one pair per participant in list
/// order, every participant receives exactly once, nobody gives to
/// themselves, and nobody gives to their declared excluded partner.
pub open spec fn valid_assignment(names: Seq<String>, pm: Seq<(String, String)>, out: Seq<(String, String)>) -> bool {
    &&& out.len() == names.len()
    &&& forall|i: int| 0 <= i < out.len() ==> (#[trigger] out[i].0)@ == names[i]@
    &&& forall|i: int| 0 <= i < out.len() ==> exists|j: int| 0 <= j < names.len() && (#[trigger] out[i].1)@ == names[j]@
    &&& forall|i: int| 0 <= i < names.len() ==> #[trigger] name_is_received(names, out, i)
    &&& forall|i1: int, i2: int| 0 <= i1 < i2 < out.len() ==> out[i1].1@ != out[i2].1@
    &&& forall|i: int| 0 <= i < out.len() ==> (#[trigger] out[i].1)@ != out[i].0@
    &&& forall|i: int|
        0 <= i < out.len() && partner_defined(names, pm, i) ==> (#[trigger] out[i].1)@ != lookup(pm, names[i]@)
}

/// Names at two positions agree only when the positions agree.
proof fn lemma_unique_names(names: Seq<String>, i: int, j: int)
    requires
        !spec_has_dup(names),
        0 <= i < names.len(),
        0 <= j < names.len(),
        names[i]@ == names[j]@,
    ensures
        i == j,
{
    if i < j {
        assert(spec_has_dup(names));
    }
    if j < i {
        assert(spec_has_dup(names));
    }
}

/// Whether some name occurs twice in the list.
fn has_duplicate(names: &Vec<String>) -> (b: bool)
    ensures
        b <==> spec_has_dup(names@),
{
    let n = names.len();
    let mut i: usize = 0;
    while i < n
        invariant
            0 <= i <= n,
            n == names@.len(),
            forall|a: int, b: int| 0 <= a < b < n && a < i ==> #[trigger] names@[a]@ != #[trigger] names@[b]@,
        decreases n - i,
    {
        let mut j: usize = i + 1;
        while j < n
            invariant
                0 <= i < j <= n,
                n == names@.len(),
                forall|b: int| i < b < j ==> #[trigger] names@[b]@ != names@[i as int]@,
            decreases n - j,
        {
            if names[i] == names[j] {
                return true;
            }
            j += 1;
        }
        i += 1;
    }
    false
}

/// The position of `target` in the list, when it occurs.
fn find_name_index(names: &Vec<String>, target: &String) -> (r: Option<usize>)
    ensures
        r matches Some(j) ==> j < names@.len() && names@[j as int]@ == target@,
        r is None ==> forall|j: int| 0 <= j < names@.len() ==> #[trigger] names@[j]@ != target@,
{
    let n = names.len();
    let mut j: usize = 0;
    while j < n
        invariant
            0 <= j <= n,
            n == names@.len(),
            forall|b: int| 0 <= b < j ==> #[trigger] names@[b]@ != target@,
        decreases n - j,
    {
        if names[j] == *target {
            return Some(j);
        }
        j += 1;
    }
    None
}

/// Resolves every participant's partner entry to a position, or reports
/// the first entry that names nobody in the list.
fn partner_indices(config: &Config) -> (r: Result<Vec<Option<usize>>, AssignError>)
    requires
        !spec_has_dup(config.names@),
        forall|i: int| 0 <= i < config.names@.len() ==> (#[trigger] config.names@[i])@.len() > 0,
    ensures
        r matches Ok(v) ==> v@ == spec_partner_seq(config.names@, config.partner_map@),
        r matches Err(e) ==> e == AssignError::UnknownPartner,
        r is Err <==> spec_unknown_partner(config.names@, config.partner_map@),
{
    let n = config.names.len();
    let empty = String::new();
    let mut v: Vec<Option<usize>> = Vec::new();
    let mut i: usize = 0;
    while i < n
        invariant
            0 <= i <= n,
            n == config.names@.len(),
            !spec_has_dup(config.names@),
            forall|a: int| 0 <= a < n ==> (#[trigger] config.names@[a])@.len() > 0,
            empty@ == Seq::<char>::empty(),
            v@.len() == i,
            forall|a: int|
                0 <= a < i ==> #[trigger] v@[a] == spec_partner_idx(config.names@, config.partner_map@, a),
            forall|a: int|
                0 <= a < i ==> !(#[trigger] partner_defined(config.names@, config.partner_map@, a))
                    || (exists|j: int|
                    0 <= j < n && #[trigger] config.names@[j]@ == lookup(config.partner_map@, config.names@[a]@)),
        decreases n - i,
    {
        let pname = get_map_val(&config.partner_map, &config.names[i]);
        if pname == empty {
            v.push(None);
            proof {
                assert(!partner_defined(config.names@, config.partner_map@, i as int));
            }
        } else {
            match find_name_index(&config.names, &pname) {
                Some(p) => {
                    v.push(Some(p));
                    proof {
                        let names = config.names@;
                        let pm = config.partner_map@;
                        assert(names[p as int]@ == lookup(pm, names[i as int]@));
                        let q = choose|j: int|
                            0 <= j < names.len() && #[trigger] names[j]@ == lookup(pm, names[i as int]@);
                        lemma_unique_names(names, q, p as int);
                        assert(v@[i as int] == spec_partner_idx(names, pm, i as int));
                    }
                },
                None => {
                    proof {
                        assert(partner_defined(config.names@, config.partner_map@, i as int));
                        assert(forall|j: int|
                            0 <= j < n ==> #[trigger] config.names@[j]@ != lookup(
                                config.partner_map@,
                                config.names@[i as int]@,
                            ));
                        assert(spec_unknown_partner(config.names@, config.partner_map@));
                    }
                    return Err(AssignError::UnknownPartner);
                },
            }
        }
        i += 1;
    }
    proof {
        assert(v@ =~= spec_partner_seq(config.names@, config.partner_map@));
    }
    Ok(v)
}

/// Whether the recorded receivers are a complete, constraint-satisfying
/// derangement of the positions.
fn check_recv(recv: &Vec<Option<usize>>, partner: &Vec<Option<usize>>) -> (b: bool)
    requires
        partner@.len() == recv@.len(),
    ensures
        b <==> valid_recv(partner@, recv@),
{
    let n = recv.len();
    let mut used: Vec<bool> = Vec::new();
    let mut k: usize = 0;
    while k < n
        invariant
            used@.len() == k <= n,
            forall|a: int| 0 <= a < k ==> !(#[trigger] used@[a]),
        decreases n - k,
    {
        used.push(false);
        k += 1;
    }
    let mut i: usize = 0;
    while i < n
        invariant
            0 <= i <= n,
            n == recv@.len(),
            partner@.len() == n,
            used@.len() == n,
            forall|a: int| 0 <= a < i ==> some_lt(#[trigger] recv@[a], n as int),
            forall|a: int, b: int| 0 <= a < b < n && a < i && b < i ==> recv@[a] != recv@[b],
            forall|j: int|
                0 <= j < n ==> ((#[trigger] used@[j]) <==> exists|a: int|
                    0 <= a < i && #[trigger] recv@[a] == Some(j as usize)),
            forall|a: int| 0 <= a < i ==> #[trigger] recv@[a] != Some(a as usize),
            forall|a: int| 0 <= a < i ==> #[trigger] recv@[a] != partner@[a] || partner@[a] is None,
        decreases n - i,
    {
        match recv[i] {
            None => {
                proof {
                    assert(!some_lt(recv@[i as int], n as int));
                }
                return false;
            },
            Some(j) => {
                if j >= n {
                    proof {
                        assert(!some_lt(recv@[i as int], n as int));
                    }
                    return false;
                }
                if j == i {
                    return false;
                }
                match partner[i] {
                    Some(p) => {
                        if p == j {
                            return false;
                        }
                    },
                    None => {},
                }
                if used[j] {
                    proof {
                        let a = choose|a: int| 0 <= a < i && #[trigger] recv@[a] == Some(j);
                        assert(recv@[a] == recv@[i as int]);
                    }
                    return false;
                }
                used[j] = true;
            },
        }
        i += 1;
    }
    let mut j: usize = 0;
    while j < n
        invariant
            0 <= j <= n,
            n == recv@.len(),
            used@.len() == n,
            forall|a: int| 0 <= a < n ==> some_lt(#[trigger] recv@[a], n as int),
            forall|a: int, b: int| 0 <= a < b < n ==> recv@[a] != recv@[b],
            forall|jj: int|
                0 <= jj < n ==> ((#[trigger] used@[jj]) <==> exists|a: int|
                    0 <= a < n && #[trigger] recv@[a] == Some(jj as usize)),
            forall|a: int| 0 <= a < n ==> #[trigger] recv@[a] != Some(a as usize),
            forall|a: int| 0 <= a < n ==> #[trigger] recv@[a] != partner@[a] || partner@[a] is None,
            forall|jj: int| 0 <= jj < j ==> #[trigger] is_received(recv@, jj),
        decreases n - j,
    {
        if !used[j] {
            proof {
                assert(!is_received(recv@, j as int));
            }
            return false;
        }
        j += 1;
    }
    true
}

/// A graph row that agrees cell-by-cell with `cell_open` lists exactly the
/// receivers `avail_up_to` lists.
proof fn lemma_avail_matches(
    row: Seq<Edge>,
    partner: Seq<Option<usize>>,
    chosen: Set<usize>,
    i: int,
    k: int,
)
    requires
        0 <= k <= row.len(),
        forall|j: int| 0 <= j < row.len() ==> ((#[trigger] row[j]) is Linked <==> cell_open(partner, chosen, i, j)),
    ensures
        linked_up_to(row, k) == avail_up_to(partner, chosen, i, k),
    decreases k,
{
    if k > 0 {
        lemma_avail_matches(row, partner, chosen, i, k - 1);
    }
}

/// Every receiver `avail_up_to` lists lies below `k` and is open for giver i.
proof fn lemma_avail_props(partner: Seq<Option<usize>>, chosen: Set<usize>, i: int, k: int)
    requires
        0 <= k <= usize::MAX,
    ensures
        forall|t: int|
            0 <= t < avail_up_to(partner, chosen, i, k).len()
                ==> (#[trigger] avail_up_to(partner, chosen, i, k)[t]) < k
                && cell_open(partner, chosen, i, avail_up_to(partner, chosen, i, k)[t] as int),
    decreases k,
{
    if k > 0 {
        lemma_avail_props(partner, chosen, i, k - 1);
        let prev = avail_up_to(partner, chosen, i, k - 1);
        let cur = avail_up_to(partner, chosen, i, k);
        assert forall|t: int|
            0 <= t < cur.len() implies (#[trigger] cur[t]) < k
            && cell_open(partner, chosen, i, cur[t] as int) by {
            if t < prev.len() {
                assert(cur[t] == prev[t]);
            }
        }
    }
}

/// On well-formed input the name-level cell formula of `build_graph` and
/// the position-level `cell_open` formula agree (with nothing chosen yet).
proof fn lemma_base_cells(names: Seq<String>, pm: Seq<(String, String)>)
    requires
        names.len() <= usize::MAX,
        !spec_has_dup(names),
        !spec_unknown_partner(names, pm),
        forall|i: int| 0 <= i < names.len() ==> (#[trigger] names[i])@.len() > 0,
    ensures
        forall|i: int, j: int|
            0 <= i < names.len() && 0 <= j < names.len()
                ==> (#[trigger] spec_unlinked(names, pm, i, j)
                <==> !cell_open(spec_partner_seq(names, pm), Set::empty(), i, j)),
{
    let pspec = spec_partner_seq(names, pm);
    assert forall|i: int, j: int|
        0 <= i < names.len() && 0 <= j < names.len() implies (#[trigger] spec_unlinked(names, pm, i, j)
        <==> !cell_open(pspec, Set::empty(), i, j)) by {
        assert(!Set::<usize>::empty().contains(j as usize));
        if spec_unlinked(names, pm, i, j) {
            if names[i]@ == names[j]@ {
                lemma_unique_names(names, i, j);
            } else {
                assert(lookup(pm, names[i]@) == names[j]@);
                assert(partner_defined(names, pm, i));
                let q = choose|q: int| 0 <= q < names.len() && #[trigger] names[q]@ == lookup(pm, names[i]@);
                lemma_unique_names(names, q, j);
                assert(pspec[i] == Some(j as usize));
            }
        } else {
            if !cell_open(pspec, Set::empty(), i, j) {
                if i == j {
                    assert(names[i]@ == names[j]@);
                } else {
                    assert(pspec[i] == Some(j as usize));
                    assert(partner_defined(names, pm, i));
                    let q = choose|q: int|
                        0 <= q < names.len() && #[trigger] names[q]@ == lookup(pm, names[i]@);
                    assert(q as usize == j as usize);
                    assert(names[j]@ == lookup(pm, names[i]@));
                }
            }
        }
    }
}

/// From a valid position-level derangement, the output pairs built from it
/// satisfy the name-level contract.
proof fn lemma_valid_assignment(
    names: Seq<String>,
    pm: Seq<(String, String)>,
    recv: Seq<Option<usize>>,
    out: Seq<(String, String)>,
)
    requires
        names.len() <= usize::MAX,
        !spec_has_dup(names),
        !spec_unknown_partner(names, pm),
        forall|i: int| 0 <= i < names.len() ==> (#[trigger] names[i])@.len() > 0,
        recv.len() == names.len(),
        out.len() == names.len(),
        valid_recv(spec_partner_seq(names, pm), recv),
        forall|a: int| 0 <= a < out.len() ==> (#[trigger] out[a].0)@ == names[a]@,
        forall|a: int|
            0 <= a < out.len() ==> ((#[trigger] recv[a]) matches Some(j) && out[a].1@ == names[j as int]@),
    ensures
        valid_assignment(names, pm, out),
{
    let n = names.len() as int;
    let pspec = spec_partner_seq(names, pm);
    assert forall|i: int| 0 <= i < n implies exists|j: int|
        0 <= j < names.len() && (#[trigger] out[i].1)@ == names[j]@ by {
        assert(some_lt(recv[i], n));
        let j = recv[i]->Some_0;
        assert(0 <= j < names.len() && out[i].1@ == names[j as int]@);
    }
    assert forall|i: int| 0 <= i < n implies #[trigger] name_is_received(names, out, i) by {
        assert(is_received(recv, i));
        let a = choose|a: int| 0 <= a < recv.len() && #[trigger] recv[a] == Some(i as usize);
        assert(out[a].1@ == names[i]@);
    }
    assert forall|i1: int, i2: int| 0 <= i1 < i2 < n implies out[i1].1@ != out[i2].1@ by {
        assert(some_lt(recv[i1], n));
        assert(some_lt(recv[i2], n));
        let j1 = recv[i1]->Some_0;
        let j2 = recv[i2]->Some_0;
        assert(j1 != j2);
        if names[j1 as int]@ == names[j2 as int]@ {
            lemma_unique_names(names, j1 as int, j2 as int);
        }
    }
    assert forall|i: int| 0 <= i < n implies (#[trigger] out[i].1)@ != out[i].0@ by {
        assert(some_lt(recv[i], n));
        let j = recv[i]->Some_0;
        assert(recv[i] != Some(i as usize));
        if names[j as int]@ == names[i]@ {
            lemma_unique_names(names, j as int, i);
        }
    }
    assert forall|i: int|
        0 <= i < n && partner_defined(names, pm, i) implies (#[trigger] out[i].1)@ != lookup(
        pm,
        names[i]@,
    ) by {
        assert(exists|j: int| 0 <= j < names.len() && #[trigger] names[j]@ == lookup(pm, names[i]@));
        let p = choose|j: int| 0 <= j < names.len() && #[trigger] names[j]@ == lookup(pm, names[i]@);
        assert(pspec[i] == Some(p as usize));
        assert(recv[i] != pspec[i]);
        assert(some_lt(recv[i], n));
        let j = recv[i]->Some_0;
        assert(j as int != p);
        if names[j as int]@ == names[p]@ {
            lemma_unique_names(names, j as int, p);
        }
    }
}

/// The draw at position `pos`, with a missing entry read as zero.
fn draw_val(draws: &Vec<usize>, pos: usize) -> (d: usize)
    ensures
        d == draw_at(draws@, pos as int),
{
    if pos < draws.len() {
        draws[pos]
    } else {
        0
    }
}

/// Runs the whole assignment over an injected draw sequence: builds the
/// exclusion graph, walks the participants in list order assigning each a
/// receiver picked by the next draw, invokes the swap resolver on deadlock,
/// and validates the finished mapping. Deterministic: the result is pinned,
/// clause by clause, to the spec-level run over the same input.
pub fn assign_with_draws(config: &Config, draws: &Vec<usize>) -> (r: Result<
    Vec<(String, String)>,
    AssignError,
>)
    requires
        forall|i: int| 0 <= i < config.names@.len() ==> (#[trigger] config.names@[i])@.len() > 0,
    ensures
        r matches Err(AssignError::TooFewParticipants) <==> config.names@.len() < 2,
        r matches Err(AssignError::DuplicateName) <==> (config.names@.len() >= 2 && spec_has_dup(
            config.names@,
        )),
        r matches Err(AssignError::UnknownPartner) <==> (config.names@.len() >= 2 && !spec_has_dup(
            config.names@,
        ) && spec_unknown_partner(config.names@, config.partner_map@)),
        r matches Err(AssignError::Unresolvable) <==> (spec_ok_input(config.names@, config.partner_map@)
            && !spec_success(config.names@, config.partner_map@, draws@)),
        r is Ok <==> spec_success(config.names@, config.partner_map@, draws@),
        (config.names@.len() >= 2 && !spec_has_dup(config.names@) && no_exclusions(
            config.names@,
            config.partner_map@,
        )) ==> r is Ok,
        r matches Ok(out) ==> {
            let fs = spec_final_state(config.names@, config.partner_map@, draws@);
            &&& out@.len() == config.names@.len()
            &&& forall|i: int| 0 <= i < out@.len() ==> (#[trigger] out@[i].0)@ == config.names@[i]@
            &&& forall|i: int|
                0 <= i < out@.len() ==> ((#[trigger] fs.recv[i]) matches Some(j) && out@[i].1@
                    == config.names@[j as int]@)
            &&& valid_assignment(config.names@, config.partner_map@, out@)
        },
{
    let ghost names = config.names@;
    let ghost pm = config.partner_map@;
    let n = config.names.len();
    if n < 2 {
        return Err(AssignError::TooFewParticipants);
    }
    if has_duplicate(&config.names) {
        return Err(AssignError::DuplicateName);
    }
    let partner_idx = match partner_indices(config) {
        Ok(v) => v,
        Err(_) => {
            return Err(AssignError::UnknownPartner);
        },
    };
    let ghost pspec = spec_partner_seq(names, pm);
    proof {
        assert forall|a: int| 0 <= a < n implies ((#[trigger] pspec[a]) matches Some(p) ==> (p as int)
            < n) by {
            if pspec[a] is Some {
                let q = choose|j: int| 0 <= j < names.len() && #[trigger] names[j]@ == lookup(pm, names[a]@);
                assert(pspec[a] == Some(q as usize));
            }
        }
        lemma_base_cells(names, pm);
    }
    let mut graph = build_graph(config);
    let mut recv: Vec<Option<usize>> = Vec::new();
    let mut k: usize = 0;
    while k < n
        invariant
            recv@.len() == k <= n,
            forall|a: int| 0 <= a < k ==> (#[trigger] recv@[a]) is None,
        decreases n - k,
    {
        recv.push(None);
        k += 1;
    }
    let mut pos: usize = 0;
    let ghost mut st = init_state(n as int);
    proof {
        assert(recv@ =~= st.recv);
    }
    let mut i: usize = 0;
    while i < n
        invariant
            0 <= i <= n,
            2 <= n == names.len(),
            names == config.names@,
            pm == config.partner_map@,
            !spec_has_dup(names),
            !spec_unknown_partner(names, pm),
            pspec == spec_partner_seq(names, pm),
            pspec.len() == n,
            forall|a: int| 0 <= a < n ==> ((#[trigger] pspec[a]) matches Some(p) ==> (p as int) < n),
            partner_idx@ == pspec,
            recv@.len() == n,
            forall|a: int| 0 <= a < n ==> ((#[trigger] recv@[a]) matches Some(x) ==> (x as int) < n),
            graph@.len() == n,
            forall|kk: int| 0 <= kk < n ==> #[trigger] graph@[kk]@.len() == n,
            forall|kk: int, jj: int|
                i <= kk < n && 0 <= jj < n ==> ((#[trigger] graph@[kk]@[jj]) is Linked <==> cell_open(
                    pspec,
                    st.chosen,
                    kk,
                    jj,
                )),
            st.recv == recv@,
            st.pos == pos as int,
            !st.stuck,
            pos <= i,
            run_from(n as int, pspec, draws@, st, i as int) == spec_final_state(names, pm, draws@),
        decreases n - i,
    {
        let linked_edge_idxs = get_linked_edges(&graph[i]);
        proof {
            lemma_avail_matches(graph@[i as int]@, pspec, st.chosen, i as int, n as int);
            lemma_avail_props(pspec, st.chosen, i as int, n as int);
        }
        if linked_edge_idxs.len() > 0 {
            let d = draw_val(draws, pos);
            let idx = d % linked_edge_idxs.len();
            let j = linked_edge_idxs[idx];
            recv[i] = Some(j);
            pos += 1;
            let ghost prev_chosen = st.chosen;
            proof {
                st = step(n as int, pspec, draws@, st, i as int);
                assert(st.chosen == prev_chosen.insert(j));
                assert(st.recv == recv@);
            }
            let mut k2 = i;
            while k2 < n
                invariant
                    i <= k2 <= n,
                    n == names.len(),
                    (j as int) < n,
                    graph@.len() == n,
                    forall|kk: int| 0 <= kk < n ==> #[trigger] graph@[kk]@.len() == n,
                    forall|kk: int, jj: int|
                        i <= kk < k2 && 0 <= jj < n ==> ((#[trigger] graph@[kk]@[jj]) is Linked
                            <==> cell_open(pspec, prev_chosen.insert(j), kk, jj)),
                    forall|kk: int, jj: int|
                        k2 <= kk < n && 0 <= jj < n ==> ((#[trigger] graph@[kk]@[jj]) is Linked
                            <==> cell_open(pspec, prev_chosen, kk, jj)),
                decreases n - k2,
            {
                graph[k2][j] = Edge::Unlinked;
                k2 += 1;
            }
        } else {
            match partner_idx[i] {
                Some(p) => {
                    match recv[p] {
                        Some(t) => {
                            let prev = recv[t];
                            recv[t] = Some(i);
                            recv[i] = prev;
                            proof {
                                st = step(n as int, pspec, draws@, st, i as int);
                                assert(st.recv =~= recv@);
                            }
                        },
                        None => {
                            proof {
                                st = step(n as int, pspec, draws@, st, i as int);
                                assert(st.stuck);
                                assert(spec_final_state(names, pm, draws@) == st);
                                if names.len() >= 2 && !spec_has_dup(names) && no_exclusions(names, pm) {
                                    lemma_no_exclusions_success(names, pm, draws@);
                                }
                            }
                            return Err(AssignError::Unresolvable);
                        },
                    }
                },
                None => {
                    let d = draw_val(draws, pos);
                    let sd = d % (n - 1);
                    let prev = recv[sd];
                    recv[sd] = Some(i);
                    recv[i] = prev;
                    pos += 1;
                    proof {
                        st = step(n as int, pspec, draws@, st, i as int);
                        assert(st.recv =~= recv@);
                    }
                },
            }
        }
        i += 1;
    }
    proof {
        assert(st == spec_final_state(names, pm, draws@));
    }
    if !check_recv(&recv, &partner_idx) {
        proof {
            if names.len() >= 2 && !spec_has_dup(names) && no_exclusions(names, pm) {
                lemma_no_exclusions_success(names, pm, draws@);
            }
        }
        return Err(AssignError::Unresolvable);
    }
    let mut out: Vec<(String, String)> = Vec::new();
    let mut oi: usize = 0;
    while oi < n
        invariant
            0 <= oi <= n,
            n == names.len(),
            names == config.names@,
            recv@.len() == n,
            valid_recv(pspec, recv@),
            pspec.len() == n,
            out@.len() == oi,
            forall|a: int| 0 <= a < oi ==> (#[trigger] out@[a].0)@ == names[a]@,
            forall|a: int|
                0 <= a < oi ==> ((#[trigger] recv@[a]) matches Some(jj) && out@[a].1@
                    == names[jj as int]@),
        decreases n - oi,
    {
        proof {
            assert(some_lt(recv@[oi as int], n as int));
        }
        let j = match recv[oi] {
            Some(j) => j,
            None => {
                proof {
                    assert(false);
                }
                0
            },
        };
        out.push((config.names[oi].clone(), config.names[j].clone()));
        oi += 1;
    }
    proof {
        lemma_valid_assignment(names, pm, recv@, out@);
    }
    Ok(out)
}

/// Runs the assignment with fresh system randomness: one raw draw is taken
/// per participant and handed to the deterministic engine. Ill-formed input
/// is rejected exactly as by `assign_with_draws`; whether a well-formed run
/// ends in an assignment or in `Unresolvable` depends on the draws.
pub fn assign(config: &Config) -> (r: Result<Vec<(String, String)>, AssignError>)
    requires
        forall|i: int| 0 <= i < config.names@.len() ==> (#[trigger] config.names@[i])@.len() > 0,
    ensures
        r matches Err(AssignError::TooFewParticipants) <==> config.names@.len() < 2,
        r matches Err(AssignError::DuplicateName) <==> (config.names@.len() >= 2 && spec_has_dup(
            config.names@,
        )),
        r matches Err(AssignError::UnknownPartner) <==> (config.names@.len() >= 2 && !spec_has_dup(
            config.names@,
        ) && spec_unknown_partner(config.names@, config.partner_map@)),
        (r is Ok || r matches Err(AssignError::Unresolvable)) <==> spec_ok_input(
            config.names@,
            config.partner_map@,
        ),
        (config.names@.len() >= 2 && !spec_has_dup(config.names@) && no_exclusions(
            config.names@,
            config.partner_map@,
        )) ==> r is Ok,
        r matches Ok(out) ==> valid_assignment(config.names@, config.partner_map@, out@),
{
    let n = config.names.len();
    let mut draws: Vec<usize> = Vec::new();
    let mut k: usize = 0;
    while k < n
        decreases n - k,
    {
        draws.push(rand_below(usize::MAX));
        k += 1;
    }
    assign_with_draws(config, &draws)
}

/// Law: a successful run is a bijection — the output's giver names and its
/// receiver names are each exactly the set of participant names, with no
/// name repeated on either side.
pub proof fn lemma_bijection(names: Seq<String>, pm: Seq<(String, String)>, out: Seq<(String, String)>)
    requires
        !spec_has_dup(names),
        valid_assignment(names, pm, out),
    ensures
        Set::new(|x: Seq<char>| exists|i: int| 0 <= i < out.len() && (#[trigger] out[i].0)@ == x)
            =~= Set::new(|x: Seq<char>| exists|i: int| 0 <= i < names.len() && (#[trigger] names[i])@ == x),
        Set::new(|x: Seq<char>| exists|i: int| 0 <= i < out.len() && (#[trigger] out[i].1)@ == x)
            =~= Set::new(|x: Seq<char>| exists|i: int| 0 <= i < names.len() && (#[trigger] names[i])@ == x),
        forall|i1: int, i2: int| 0 <= i1 < i2 < out.len() ==> out[i1].0@ != out[i2].0@,
        forall|i1: int, i2: int| 0 <= i1 < i2 < out.len() ==> out[i1].1@ != out[i2].1@,
{
    let givers = Set::new(|x: Seq<char>| exists|i: int| 0 <= i < out.len() && (#[trigger] out[i].0)@ == x);
    let receivers = Set::new(
        |x: Seq<char>| exists|i: int| 0 <= i < out.len() && (#[trigger] out[i].1)@ == x,
    );
    let all = Set::new(|x: Seq<char>| exists|i: int| 0 <= i < names.len() && (#[trigger] names[i])@ == x);
    assert forall|x: Seq<char>| givers.contains(x) implies all.contains(x) by {
        let i = choose|i: int| 0 <= i < out.len() && (#[trigger] out[i].0)@ == x;
        assert(names[i]@ == x);
    }
    assert forall|x: Seq<char>| all.contains(x) implies givers.contains(x) by {
        let i = choose|i: int| 0 <= i < names.len() && (#[trigger] names[i])@ == x;
        assert(out[i].0@ == x);
    }
    assert forall|x: Seq<char>| receivers.contains(x) implies all.contains(x) by {
        let i = choose|i: int| 0 <= i < out.len() && (#[trigger] out[i].1)@ == x;
        let j = choose|j: int| 0 <= j < names.len() && out[i].1@ == (#[trigger] names[j])@;
        assert(names[j]@ == x);
    }
    assert forall|x: Seq<char>| all.contains(x) implies receivers.contains(x) by {
        let i = choose|i: int| 0 <= i < names.len() && (#[trigger] names[i])@ == x;
        assert(name_is_received(names, out, i));
        let j = choose|j: int| 0 <= j < out.len() && (#[trigger] out[j].1)@ == names[i]@;
        assert(out[j].1@ == x);
    }
}

/// Law: nobody gives to themselves in a successful run.
pub proof fn lemma_no_self_gift(
    names: Seq<String>,
    pm: Seq<(String, String)>,
    out: Seq<(String, String)>,
    i: int,
)
    requires
        valid_assignment(names, pm, out),
        0 <= i < out.len(),
    ensures
        out[i].1@ != out[i].0@,
{
}

/// Law: nobody gives to their declared excluded partner in a successful
/// run; the exclusion read is the giver's own partner entry, so only the
/// declared direction is enforced.
pub proof fn lemma_no_partner_gift(
    names: Seq<String>,
    pm: Seq<(String, String)>,
    out: Seq<(String, String)>,
    i: int,
)
    requires
        valid_assignment(names, pm, out),
        0 <= i < out.len(),
        partner_defined(names, pm, i),
    ensures
        out[i].1@ != lookup(pm, names[i]@),
{
}

/// Law: partner exclusions are directional. When i's partner entry names
/// position j but j's entry does not name i back, the fresh graph unlinks
/// the cell (i, j) and leaves (j, i) linked.
pub proof fn lemma_exclusion_directional(names: Seq<String>, pm: Seq<(String, String)>, i: int, j: int)
    requires
        !spec_has_dup(names),
        0 <= i < names.len(),
        0 <= j < names.len(),
        i != j,
        lookup(pm, names[i]@) == names[j]@,
        lookup(pm, names[j]@) != names[i]@,
    ensures
        spec_unlinked(names, pm, i, j),
        !spec_unlinked(names, pm, j, i),
{
    if names[j]@ == names[i]@ {
        lemma_unique_names(names, i, j);
    }
}

/// The positions a `usize` can take below `n`.
spec fn usize_below(n: int) -> Set<usize> {
    Set::new(|u: usize| (u as int) < n)
}

proof fn lemma_usize_below(n: int)
    requires
        0 <= n <= usize::MAX,
    ensures
        usize_below(n).finite(),
        usize_below(n).len() == n,
    decreases n,
{
    if n == 0 {
        assert(usize_below(0) =~= Set::empty());
    } else {
        lemma_usize_below(n - 1);
        assert(usize_below(n) =~= usize_below(n - 1).insert((n - 1) as usize));
    }
}

/// When no receiver is listed as available, no cell of the row is open.
proof fn lemma_avail_complete(partner: Seq<Option<usize>>, chosen: Set<usize>, i: int, k: int)
    requires
        avail_up_to(partner, chosen, i, k).len() == 0,
    ensures
        forall|j: int| 0 <= j < k ==> !cell_open(partner, chosen, i, j),
    decreases k,
{
    if k > 0 {
        assert(!cell_open(partner, chosen, i, k - 1));
        lemma_avail_complete(partner, chosen, i, k - 1);
    }
}

/// Position `u` is recorded as a receiver by some giver below `i`.
spec fn recorded_before(recv: Seq<Option<usize>>, i: int, u: usize) -> bool {
    exists|a: int| 0 <= a < i && #[trigger] recv[a] == Some(u)
}

/// The greedy pass's running invariant over a partner-free run: the first
/// `i` givers each hold a distinct in-range receiver other than themselves,
/// and `chosen` is exactly the set of those receivers.
spec fn greedy_inv(n: int, st: RunState, i: int) -> bool {
    &&& st.recv.len() == n
    &&& !st.stuck
    &&& forall|a: int| i <= a < n ==> (#[trigger] st.recv[a]) is None
    &&& forall|a: int|
        0 <= a < i ==> ((#[trigger] st.recv[a]) matches Some(v) && (v as int) < n && (v as int) != a)
    &&& forall|a1: int, a2: int| 0 <= a1 < a2 < i ==> st.recv[a1] != st.recv[a2]
    &&& forall|a: int| 0 <= a < i ==> st.chosen.contains((#[trigger] st.recv[a])->Some_0)
    &&& forall|u: usize| st.chosen.contains(u) ==> (u as int) < n && recorded_before(st.recv, i, u)
    &&& st.chosen.finite()
    &&& st.chosen.len() == i
}

/// Folding the remaining partner-free steps from a state satisfying the
/// greedy invariant ends unstuck with a valid derangement.
proof fn lemma_no_exclusions_run(
    n: int,
    partner: Seq<Option<usize>>,
    draws: Seq<usize>,
    st: RunState,
    i: int,
)
    requires
        2 <= n <= usize::MAX,
        partner.len() == n,
        forall|a: int| 0 <= a < n ==> (#[trigger] partner[a]) is None,
        0 <= i <= n,
        greedy_inv(n, st, i),
    ensures
        !run_from(n, partner, draws, st, i).stuck,
        valid_recv(partner, run_from(n, partner, draws, st, i).recv),
    decreases n - i,
{
    if i == n {
        // every giver holds a receiver; the receiver set has n distinct
        // in-range members, so it covers every position
        lemma_usize_below(n);
        assert(st.chosen.subset_of(usize_below(n)));
        vstd::set_lib::lemma_subset_equality(st.chosen, usize_below(n));
        assert forall|j: int| 0 <= j < n implies #[trigger] is_received(st.recv, j) by {
            assert(usize_below(n).contains(j as usize));
            assert(st.chosen.contains(j as usize));
            assert(recorded_before(st.recv, n, j as usize));
            let a = choose|a: int| 0 <= a < n && #[trigger] st.recv[a] == Some(j as usize);
            assert(0 <= a < st.recv.len() && st.recv[a] == Some(j as usize));
        }
    } else {
        let av = avail_up_to(partner, st.chosen, i, n);
        let st2 = step(n, partner, draws, st, i);
        if av.len() > 0 {
            lemma_avail_props(partner, st.chosen, i, n);
            let idx = draw_at(draws, st.pos) as int % av.len() as int;
            let j = av[idx];
            assert(cell_open(partner, st.chosen, i, j as int));
            assert(st2.recv == st.recv.update(i, Some(j)));
            assert(st2.chosen == st.chosen.insert(j));
            assert(st2.chosen.len() == i + 1);
            assert forall|u: usize| st2.chosen.contains(u) implies (u as int) < n
                && recorded_before(st2.recv, i + 1, u) by {
                if u == j {
                    assert(st2.recv[i] == Some(u));
                } else {
                    assert(st.chosen.contains(u));
                    let a = choose|a: int| 0 <= a < i && #[trigger] st.recv[a] == Some(u);
                    assert(st2.recv[a] == Some(u));
                }
            }
            assert forall|a: int| 0 <= a < i + 1 implies st2.chosen.contains(
                (#[trigger] st2.recv[a])->Some_0,
            ) by {
                if a < i {
                    assert(st2.recv[a] == st.recv[a]);
                }
            }
            assert(greedy_inv(n, st2, i + 1));
            lemma_no_exclusions_run(n, partner, draws, st2, i + 1);
        } else {
            // deadlock: every position is the giver itself or already
            // chosen, which forces this to be the final giver
            lemma_avail_complete(partner, st.chosen, i, n);
            lemma_usize_below(n);
            assert forall|u: usize| usize_below(n).contains(u) implies st.chosen.insert(
                i as usize,
            ).contains(u) by {
                assert(!cell_open(partner, st.chosen, i, u as int));
            }
            if i < n - 1 {
                assert(usize_below(n).subset_of(st.chosen.insert(i as usize)));
                vstd::set_lib::lemma_len_subset(usize_below(n), st.chosen.insert(i as usize));
                assert(st.chosen.insert(i as usize).len() <= i + 1);
                assert(false);
            }
            assert(i == n - 1);
            // the chosen set is every position but the last
            let others = usize_below(n).remove((n - 1) as usize);
            assert(others.len() == n - 1);
            if st.chosen.contains((n - 1) as usize) {
                assert(st.chosen.insert(i as usize) =~= st.chosen);
                assert(usize_below(n).subset_of(st.chosen));
                vstd::set_lib::lemma_len_subset(usize_below(n), st.chosen);
                assert(false);
            }
            assert(st.chosen.subset_of(others));
            vstd::set_lib::lemma_subset_equality(st.chosen, others);
            // the swap: the drawn giver hands its receiver to the last one
            let d = draw_at(draws, st.pos) as int % (n - 1);
            assert(0 <= d < n - 1);
            let vd = st.recv[d]->Some_0;
            assert(st.recv[d] == Some(vd));
            assert(st.chosen.contains(vd));
            assert((vd as int) < n - 1);
            let recv2 = st.recv.update(d, Some(i as usize)).update(i, st.recv[d]);
            assert(st2.recv == recv2);
            assert(!st2.stuck);
            assert(run_from(n, partner, draws, st2, i + 1) == st2);
            assert(run_from(n, partner, draws, st, i) == st2);
            assert forall|a: int| 0 <= a < n implies some_lt(#[trigger] recv2[a], n) by {
                if a != d && a != i {
                    assert(recv2[a] == st.recv[a]);
                }
            }
            assert forall|a1: int, a2: int| 0 <= a1 < a2 < n implies recv2[a1] != recv2[a2] by {
                if a2 < i {
                    if a1 != d && a2 != d {
                        assert(recv2[a1] == st.recv[a1] && recv2[a2] == st.recv[a2]);
                    } else if a1 == d {
                        assert(recv2[a1] == Some((n - 1) as usize));
                        assert(st.chosen.contains(st.recv[a2]->Some_0));
                    } else {
                        assert(recv2[a2] == Some((n - 1) as usize));
                        assert(st.chosen.contains(st.recv[a1]->Some_0));
                    }
                } else {
                    // a2 == i: the last giver holds vd, recorded only at d
                    assert(recv2[a2] == Some(vd));
                    if a1 == d {
                        assert(recv2[a1] == Some((n - 1) as usize));
                    } else {
                        assert(recv2[a1] == st.recv[a1]);
                        assert(st.recv[a1] != st.recv[d]);
                    }
                }
            }
            assert forall|j: int| 0 <= j < n implies #[trigger] is_received(recv2, j) by {
                if j == n - 1 {
                    assert(recv2[d] == Some(j as usize));
                } else if j == vd as int {
                    assert(recv2[i as int] == Some(vd));
                } else {
                    assert(others.contains(j as usize));
                    assert(st.chosen.contains(j as usize));
                    assert(recorded_before(st.recv, i, j as usize));
                    let a = choose|a: int| 0 <= a < i && #[trigger] st.recv[a] == Some(j as usize);
                    assert(a != d);
                    assert(recv2[a] == Some(j as usize));
                }
            }
            assert forall|a: int| 0 <= a < n implies #[trigger] recv2[a] != Some(a as usize) by {
                if a == d {
                    assert(recv2[a] == Some((n - 1) as usize));
                } else if a == i {
                    assert(recv2[a] == Some(vd));
                } else {
                    assert(recv2[a] == st.recv[a]);
                }
            }
            assert(valid_recv(partner, recv2));
        }
    }
}

/// Law: with no exclusions declared, success is owed — every run over a
/// well-formed participant list whose partner entries are all absent or
/// empty ends in a complete, constraint-satisfying assignment, whatever
/// the draws: the greedy pass can only deadlock at the last participant,
/// where the swap resolver always repairs the state.
pub proof fn lemma_no_exclusions_success(names: Seq<String>, pm: Seq<(String, String)>, draws: Seq<usize>)
    requires
        2 <= names.len() <= usize::MAX,
        !spec_has_dup(names),
        no_exclusions(names, pm),
    ensures
        spec_success(names, pm, draws),
{
    let n = names.len() as int;
    let pspec = spec_partner_seq(names, pm);
    assert(!spec_unknown_partner(names, pm));
    assert(forall|a: int| 0 <= a < n ==> (#[trigger] pspec[a]) is None);
    let st0 = init_state(n);
    assert(st0.chosen =~= Set::empty());
    assert(greedy_inv(n, st0, 0));
    lemma_no_exclusions_run(n, pspec, draws, st0, 0);
}

/// Law: the run is deterministic in its inputs — with the participant
/// list, the partner map and the draw sequence fixed, the final state, and
/// so the output, is one value.
pub proof fn lemma_deterministic(
    names: Seq<String>,
    pm: Seq<(String, String)>,
    draws: Seq<usize>,
    fs1: RunState,
    fs2: RunState,
)
    requires
        fs1 == spec_final_state(names, pm, draws),
        fs2 == spec_final_state(names, pm, draws),
    ensures
        fs1 == fs2,
{
}

} // verus!
