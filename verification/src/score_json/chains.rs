//! Connected notes of a JSON chart grouped into chains.
use super::RawNote;
use vstd::prelude::*;

verus! {

/// The index of the last of the first `n` notes with the given id, or -1.
pub open spec fn id_index(notes: Seq<RawNote>, id: i64, n: int) -> int
    decreases n,
{
    if n <= 0 {
        -1
    } else if notes[n - 1].id == id {
        n - 1
    } else {
        id_index(notes, id, n - 1)
    }
}

/// The note a note connects to: the last note with its next id, or -1.
pub open spec fn next_index(notes: Seq<RawNote>, i: int) -> int {
    if notes[i].next_connection_id == -1 {
        -1
    } else {
        id_index(notes, notes[i].next_connection_id, notes.len() as int)
    }
}

/// Follows connections from note `cur` while its id is not yet visited,
/// for at most `fuel` notes: the chain and the visited ids after it.
pub open spec fn walk(notes: Seq<RawNote>, vis: Seq<i64>, cur: int, fuel: nat) -> (
    Seq<usize>,
    Seq<i64>,
)
    decreases fuel,
{
    if fuel == 0 || cur < 0 || cur >= notes.len() || vis.contains(notes[cur].id) {
        (seq![], vis)
    } else {
        let rest = walk(notes, vis.push(notes[cur].id), next_index(notes, cur), (fuel - 1) as nat);
        (seq![cur as usize] + rest.0, rest.1)
    }
}

/// The chains and visited ids after the first `k` notes were tried as chain
/// heads: a note with no previous connection but a next one starts a chain
/// unless already visited.
pub open spec fn head_chains(notes: Seq<RawNote>, k: int) -> (Seq<Seq<usize>>, Seq<i64>)
    decreases k,
{
    if k <= 0 {
        (seq![], seq![])
    } else {
        let (chains, vis) = head_chains(notes, k - 1);
        let note = notes[k - 1];
        if vis.contains(note.id) || (note.next_connection_id == -1
            && note.previous_connection_id == -1) || note.previous_connection_id != -1 {
            (chains, vis)
        } else {
            let (c, vis2) = walk(notes, vis, k - 1, notes.len() as nat);
            (
                if c.len() > 0 {
                    chains.push(c)
                } else {
                    chains
                },
                vis2,
            )
        }
    }
}

/// After the chain heads, every connected note not yet visited (among the
/// first `k`) becomes a chain of its own.
pub open spec fn loose_chains(notes: Seq<RawNote>, k: int) -> (Seq<Seq<usize>>, Seq<i64>)
    decreases k,
{
    if k <= 0 {
        head_chains(notes, notes.len() as int)
    } else {
        let (chains, vis) = loose_chains(notes, k - 1);
        let note = notes[k - 1];
        if !vis.contains(note.id) && (note.next_connection_id != -1
            || note.previous_connection_id != -1) {
            (chains.push(seq![(k - 1) as usize]), vis.push(note.id))
        } else {
            (chains, vis)
        }
    }
}

/// The chains of connected notes and the ids of the connected notes.
pub open spec fn spec_build_chains(notes: Seq<RawNote>) -> (Seq<Seq<usize>>, Seq<i64>) {
    loose_chains(notes, notes.len() as int)
}

/// Whether an id is among the visited ones.
pub fn contains_id(ids: &Vec<i64>, id: i64) -> (r: bool)
    ensures
        r == ids@.contains(id),
{
    let mut i: usize = 0;
    while i < ids.len()
        invariant
            i <= ids@.len(),
            forall|j: int| 0 <= j < i ==> ids@[j] != id,
        decreases ids@.len() - i,
    {
        if ids[i] == id {
            return true;
        }
        i = i + 1;
    }
    false
}

/// The index of the last note with the given id.
fn find_id(notes: &Vec<RawNote>, id: i64) -> (r: Option<usize>)
    ensures
        match r {
            Some(i) => i as int == id_index(notes@, id, notes@.len() as int) && i < notes@.len(),
            None => id_index(notes@, id, notes@.len() as int) < 0,
        },
{
    let mut n = notes.len();
    while n > 0
        invariant
            n <= notes@.len(),
            id_index(notes@, id, notes@.len() as int) == id_index(notes@, id, n as int),
        decreases n,
    {
        if notes[n - 1].id == id {
            return Some(n - 1);
        }
        n = n - 1;
    }
    None
}

/// The walk from note `start` (see `walk` with `notes.len()` steps).
fn walk_chain(notes: &Vec<RawNote>, visited: &mut Vec<i64>, start: usize) -> (r: Vec<usize>)
    requires
        start < notes@.len(),
    ensures
        (r@, final(visited)@) == walk(notes@, old(visited)@, start as int, notes@.len() as nat),
{
    let mut chain: Vec<usize> = Vec::new();
    let mut current: Option<usize> = Some(start);
    let mut fuel: usize = notes.len();
    let ghost target = walk(notes@, old(visited)@, start as int, notes@.len() as nat);
    while fuel > 0
        invariant
            fuel <= notes@.len(),
            current matches Some(c) ==> c < notes@.len(),
            ({
                let rest = walk(
                    notes@,
                    visited@,
                    match current {
                        Some(c) => c as int,
                        None => -1,
                    },
                    fuel as nat,
                );
                target == (chain@ + rest.0, rest.1)
            }),
        decreases fuel,
    {
        match current {
            None => {
                fuel = 0;
            },
            Some(c) => {
                let note = &notes[c];
                if contains_id(visited, note.id) {
                    fuel = 0;
                } else {
                    let ghost vis0 = visited@;
                    let ghost chain0 = chain@;
                    chain.push(c);
                    visited.push(note.id);
                    current = if note.next_connection_id == -1 {
                        None
                    } else {
                        find_id(notes, note.next_connection_id)
                    };
                    proof {
                        let next = next_index(notes@, c as int);
                        assert(match current {
                            Some(x) => x as int == next,
                            None => next < 0,
                        });
                        let rest = walk(
                            notes@,
                            vis0.push(notes@[c as int].id),
                            next,
                            (fuel - 1) as nat,
                        );
                        assert(walk(notes@, vis0, c as int, fuel as nat) == (
                            seq![c] + rest.0,
                            rest.1,
                        ));
                        assert(chain0 + (seq![c] + rest.0) =~= chain@ + rest.0);
                        if current is None {
                            assert(walk(notes@, visited@, -1, (fuel - 1) as nat) == walk(
                                notes@,
                                visited@,
                                next,
                                (fuel - 1) as nat,
                            ));
                        }
                    }
                    fuel = fuel - 1;
                }
            },
        }
    }
    proof {
        let rest = walk(
            notes@,
            visited@,
            match current {
                Some(c) => c as int,
                None => -1,
            },
            fuel as nat,
        );
        assert(rest.0 =~= Seq::<usize>::empty());
        assert(chain@ + rest.0 =~= chain@);
    }
    chain
}

/// Groups the connected notes into chains (see `spec_build_chains`).
pub fn build_chains(notes: &Vec<RawNote>) -> (r: (Vec<Vec<usize>>, Vec<i64>))
    ensures
        (r.0@.map_values(|c: Vec<usize>| c@), r.1@) == spec_build_chains(notes@),
{
    let mut visited: Vec<i64> = Vec::new();
    let mut chains: Vec<Vec<usize>> = Vec::new();
    let n = notes.len();
    let mut k: usize = 0;
    while k < n
        invariant
            k <= n,
            n == notes@.len(),
            (chains@.map_values(|c: Vec<usize>| c@), visited@) == head_chains(notes@, k as int),
        decreases n - k,
    {
        let note = &notes[k];
        if !contains_id(&visited, note.id) && !(note.next_connection_id == -1
            && note.previous_connection_id == -1) && note.previous_connection_id == -1 {
            let chain = walk_chain(notes, &mut visited, k);
            if chain.len() > 0 {
                let ghost before = chains@.map_values(|c: Vec<usize>| c@);
                chains.push(chain);
                proof {
                    assert(chains@.map_values(|c: Vec<usize>| c@) =~= before.push(chain@));
                }
            }
        }
        k = k + 1;
    }
    let mut k: usize = 0;
    while k < n
        invariant
            k <= n,
            n == notes@.len(),
            (chains@.map_values(|c: Vec<usize>| c@), visited@) == loose_chains(notes@, k as int),
        decreases n - k,
    {
        let note = &notes[k];
        if !contains_id(&visited, note.id) && (note.next_connection_id != -1
            || note.previous_connection_id != -1) {
            let ghost before = chains@.map_values(|c: Vec<usize>| c@);
            let mut single: Vec<usize> = Vec::new();
            single.push(k);
            chains.push(single);
            visited.push(note.id);
            proof {
                assert(single@ =~= seq![k]);
                assert(chains@.map_values(|c: Vec<usize>| c@) =~= before.push(seq![k]));
            }
        }
        k = k + 1;
    }
    (chains, visited)
}

/// Every index of a walk lies in the arena.
pub proof fn lemma_walk_in_range(notes: Seq<RawNote>, vis: Seq<i64>, cur: int, fuel: nat)
    ensures
        forall|j: int|
            0 <= j < walk(notes, vis, cur, fuel).0.len() ==> #[trigger] walk(notes, vis, cur, fuel).0[j]
                < notes.len(),
    decreases fuel,
{
    if !(fuel == 0 || cur < 0 || cur >= notes.len() || vis.contains(notes[cur].id)) {
        let next = next_index(notes, cur);
        lemma_walk_in_range(notes, vis.push(notes[cur].id), next, (fuel - 1) as nat);
        let rest = walk(notes, vis.push(notes[cur].id), next, (fuel - 1) as nat);
        assert forall|j: int| 0 <= j < walk(notes, vis, cur, fuel).0.len() implies #[trigger] walk(
            notes,
            vis,
            cur,
            fuel,
        ).0[j] < notes.len() by {
            if j > 0 {
                assert(walk(notes, vis, cur, fuel).0[j] == rest.0[j - 1]);
            }
        }
    }
}

/// Every index of every chain lies in the arena.
pub proof fn lemma_chains_in_range(notes: Seq<RawNote>, k: int)
    requires
        k <= notes.len(),
    ensures
        forall|c: int, j: int|
            0 <= c < loose_chains(notes, k).0.len() && 0 <= j < loose_chains(notes, k).0[c].len()
                ==> #[trigger] loose_chains(notes, k).0[c][j] < notes.len(),
    decreases k,
{
    if k <= 0 {
        lemma_head_chains_in_range(notes, notes.len() as int);
    } else {
        lemma_chains_in_range(notes, k - 1);
        let (chains, vis) = loose_chains(notes, k - 1);
        let note = notes[k - 1];
        if !vis.contains(note.id) && (note.next_connection_id != -1
            || note.previous_connection_id != -1) {
            let c2 = chains.push(seq![(k - 1) as usize]);
            assert forall|c: int, j: int| 0 <= c < c2.len() && 0 <= j < c2[c].len() implies #[trigger] c2[c][j]
                < notes.len() by {
                if c < chains.len() {
                    assert(c2[c] == chains[c]);
                }
            }
        }
    }
}

/// Every index of every head chain lies in the arena.
proof fn lemma_head_chains_in_range(notes: Seq<RawNote>, k: int)
    ensures
        forall|c: int, j: int|
            0 <= c < head_chains(notes, k).0.len() && 0 <= j < head_chains(notes, k).0[c].len()
                ==> #[trigger] head_chains(notes, k).0[c][j] < notes.len(),
    decreases k,
{
    if k > 0 {
        lemma_head_chains_in_range(notes, k - 1);
        let (chains, vis) = head_chains(notes, k - 1);
        lemma_walk_in_range(notes, vis, k - 1, notes.len() as nat);
    }
}

} // verus!
