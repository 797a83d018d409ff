//! The exclusion graph: a square matrix over participant positions saying,
//! for each ordered pair (giver, candidate receiver), whether the assignment
//! is currently permitted.

use vstd::prelude::*;

verus! {

/// State of one cell of the exclusion graph: `Linked` means the assignment
/// is currently permitted, `Unlinked` means it is forbidden or already used.
#[derive(Clone, Copy, PartialEq, Eq, Structural, Debug)]
pub enum Edge {
    Linked,
    Unlinked,
}

/// The core's input: the ordered participant list and the excluded-partner
/// map, given as (name, partner) pairs. An absent entry, or an entry whose
/// value is the empty string, means "no excluded partner".
pub struct Config {
    pub names: Vec<String>,
    pub partner_map: Vec<(String, String)>,
}

/// First value paired with `key`, or the empty sequence when no pair
/// carries that key.
pub open spec fn lookup(pairs: Seq<(String, String)>, key: Seq<char>) -> Seq<char>
    decreases pairs.len(),
{
    if pairs.len() == 0 {
        Seq::empty()
    } else if pairs[0].0@ == key {
        pairs[0].1@
    } else {
        lookup(pairs.drop_first(), key)
    }
}

/// Whether cell (i, j) of a freshly built graph is `Unlinked`: the two
/// positions carry the same name, or position i's excluded partner is
/// position j's name. The formula is directional: only i's own partner
/// entry is consulted.
pub open spec fn spec_unlinked(names: Seq<String>, pm: Seq<(String, String)>, i: int, j: int) -> bool {
    names[i]@ == names[j]@ || lookup(pm, names[i]@) == names[j]@
}

/// Value stored for `key`, or an empty string when the map has no such key.
pub fn get_map_val(map: &Vec<(String, String)>, key: &String) -> (r: String)
    ensures
        r@ == lookup(map@, key@),
{
    let mut k: usize = 0;
    proof {
        assert(map@.skip(0) =~= map@);
    }
    while k < map.len()
        invariant
            0 <= k <= map@.len(),
            lookup(map@, key@) == lookup(map@.skip(k as int), key@),
        decreases map@.len() - k,
    {
        if map[k].0 == *key {
            return map[k].1.clone();
        }
        proof {
            assert(map@.skip(k as int).drop_first() =~= map@.skip(k as int + 1));
        }
        k += 1;
    }
    String::new()
}

/// Builds the exclusion graph: cell (i, j) is `Unlinked` iff i and j carry
/// the same name or i's excluded partner equals j's name; every other cell
/// is `Linked`. Always succeeds; an empty name list yields an empty matrix.
pub fn build_graph(config: &Config) -> (g: Vec<Vec<Edge>>)
    ensures
        g@.len() == config.names@.len(),
        forall|i: int| 0 <= i < g@.len() ==> #[trigger] g@[i]@.len() == config.names@.len(),
        forall|i: int, j: int|
            0 <= i < g@.len() && 0 <= j < g@.len() ==> ((#[trigger] g@[i]@[j]) is Unlinked
                <==> spec_unlinked(config.names@, config.partner_map@, i, j)),
{
    let n = config.names.len();
    let mut g: Vec<Vec<Edge>> = Vec::new();
    let mut i: usize = 0;
    while i < n
        invariant
            0 <= i <= n,
            n == config.names@.len(),
            g@.len() == i,
            forall|a: int| 0 <= a < i ==> #[trigger] g@[a]@.len() == n,
            forall|a: int, b: int|
                0 <= a < i && 0 <= b < n ==> ((#[trigger] g@[a]@[b]) is Unlinked
                    <==> spec_unlinked(config.names@, config.partner_map@, a, b)),
        decreases n - i,
    {
        let partner = get_map_val(&config.partner_map, &config.names[i]);
        let mut row: Vec<Edge> = Vec::new();
        let mut j: usize = 0;
        while j < n
            invariant
                0 <= j <= n,
                0 <= i < n,
                n == config.names@.len(),
                partner@ == lookup(config.partner_map@, config.names@[i as int]@),
                row@.len() == j,
                forall|b: int|
                    0 <= b < j ==> ((#[trigger] row@[b]) is Unlinked
                        <==> spec_unlinked(config.names@, config.partner_map@, i as int, b)),
            decreases n - j,
        {
            let is_same_person = config.names[i] == config.names[j];
            let is_partner = partner == config.names[j];
            if is_same_person || is_partner {
                row.push(Edge::Unlinked);
            } else {
                row.push(Edge::Linked);
            }
            j += 1;
        }
        g.push(row);
        i += 1;
    }
    g
}

/// The column indices among the first `k` cells of `row` that are `Linked`,
/// in ascending order.
pub open spec fn linked_up_to(row: Seq<Edge>, k: int) -> Seq<usize>
    decreases k,
{
    if k <= 0 {
        Seq::empty()
    } else if row[k - 1] is Linked {
        linked_up_to(row, k - 1).push((k - 1) as usize)
    } else {
        linked_up_to(row, k - 1)
    }
}

/// The indices of the `Linked` cells of one graph row, in ascending order:
/// the receivers still available to that row's giver.
pub fn get_linked_edges(edges: &Vec<Edge>) -> (r: Vec<usize>)
    ensures
        r@ == linked_up_to(edges@, edges@.len() as int),
{
    let mut r: Vec<usize> = Vec::new();
    let mut k: usize = 0;
    while k < edges.len()
        invariant
            0 <= k <= edges@.len(),
            r@ == linked_up_to(edges@, k as int),
        decreases edges@.len() - k,
    {
        match edges[k] {
            Edge::Linked => {
                r.push(k);
            },
            Edge::Unlinked => {},
        }
        k += 1;
    }
    r
}

} // verus!
