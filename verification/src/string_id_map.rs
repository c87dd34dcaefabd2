use vstd::hash_map::StringHashMap;
use vstd::prelude::*;

verus! {

/// The identifier that the first string gets. The identifiers 0 and 1 are left
/// to whoever reads the graph.
pub const STARTING_STRING_ID: u64 = 2;

/// The identifiers after one more string was looked up: a string that is known
/// keeps its identifier, a new one gets the next free one.
pub open spec fn interned(ids: Map<Seq<char>, u64>, string: Seq<char>) -> Map<Seq<char>, u64> {
    if ids.contains_key(string) {
        ids
    } else {
        ids.insert(string, (STARTING_STRING_ID + ids.len()) as u64)
    }
}

/// Whether identifiers are as one pass of lookups leaves them: finitely many
/// strings, each with an identifier of its own, and the identifiers are the
/// numbers from 2 on without a gap.
pub open spec fn ids_valid(ids: Map<Seq<char>, u64>) -> bool {
    &&& ids.dom().finite()
    &&& STARTING_STRING_ID + ids.len() <= u64::MAX
    &&& forall|s: Seq<char>| #[trigger]
        ids.contains_key(s) ==> STARTING_STRING_ID <= ids[s] < STARTING_STRING_ID + ids.len()
    &&& forall|a: Seq<char>, b: Seq<char>|
        ids.contains_key(a) && ids.contains_key(b) && #[trigger] ids[a] == #[trigger] ids[b] ==> a
            == b
}

/// Gives each distinct string a small identifier, in the order in which the
/// strings are first looked up.
pub struct StringIdMap {
    map: StringHashMap<u64>,
    current_string_id: u64,
}

impl View for StringIdMap {
    type V = Map<Seq<char>, u64>;

    closed spec fn view(&self) -> Map<Seq<char>, u64> {
        self.map@
    }
}

impl StringIdMap {
    /// The identifier that the next new string gets.
    pub closed spec fn next_id(&self) -> u64 {
        self.current_string_id
    }

    /// The invariant: the identifiers are valid, and the next one follows them.
    pub open spec fn wf(&self) -> bool {
        &&& ids_valid(self@)
        &&& self.next_id() == STARTING_STRING_ID + self@.len()
    }

    /// An interner that knows no string yet.
    pub fn new() -> (r: Self)
        ensures
            r.wf(),
            r@ == Map::<Seq<char>, u64>::empty(),
            r.next_id() == STARTING_STRING_ID,
    {
        Self { map: StringHashMap::new(), current_string_id: STARTING_STRING_ID }
    }

    /// The identifier of a string: the one it got before, or, for a string
    /// that is new, the next free one, which it keeps from now on.
    pub fn get_node_id(&mut self, string: &String) -> (id: u64)
        requires
            old(self).wf(),
            old(self)@.contains_key(string@) || old(self).next_id() < u64::MAX,
        ensures
            final(self).wf(),
            final(self)@ == interned(old(self)@, string@),
            id == final(self)@[string@],
            old(self)@.contains_key(string@) ==> id == old(self)@[string@] && final(self).next_id()
                == old(self).next_id(),
            !old(self)@.contains_key(string@) ==> id == old(self).next_id()
                && final(self).next_id() == id + 1,
    {
        match self.map.get(string.as_str()) {
            Some(id) => *id,
            None => {
                let string_id: u64 = self.current_string_id;
                proof {
                    lemma_interned_valid(self@, string@);
                }
                self.map.insert(string.clone(), string_id);
                self.current_string_id = string_id + 1;
                string_id
            },
        }
    }
}

/// Looking up one more string leaves valid identifiers valid, changes no
/// identifier that was given before, and the string then has one.
pub proof fn lemma_interned_valid(ids: Map<Seq<char>, u64>, string: Seq<char>)
    requires
        ids_valid(ids),
        ids.contains_key(string) || STARTING_STRING_ID + ids.len() < u64::MAX,
    ensures
        ids_valid(interned(ids, string)),
        interned(ids, string).contains_key(string),
        forall|s: Seq<char>| ids.contains_key(s) ==> interned(ids, string).contains_key(s)
            && interned(ids, string)[s] == ids[s],
        interned(ids, string).len() == ids.len() + (if ids.contains_key(string) {
            0nat
        } else {
            1nat
        }),
{
    if !ids.contains_key(string) {
        let after = interned(ids, string);
        assert(after.dom() =~= ids.dom().insert(string));
        assert(after.len() == ids.len() + 1);
        assert forall|s: Seq<char>| #[trigger] after.contains_key(s) implies STARTING_STRING_ID
            <= after[s] < STARTING_STRING_ID + after.len() by {
            if s != string {
                assert(ids.contains_key(s));
            }
        }
        assert forall|a: Seq<char>, b: Seq<char>|
            after.contains_key(a) && after.contains_key(b) && #[trigger] after[a]
                == #[trigger] after[b] implies a == b by {
            if a != string {
                assert(ids.contains_key(a));
            }
            if b != string {
                assert(ids.contains_key(b));
            }
        }
    }
}

/// Within one pass, two strings have the same identifier exactly when they are
/// the same string, and no identifier is below 2.
pub proof fn lemma_ids_distinct(ids: Map<Seq<char>, u64>, a: Seq<char>, b: Seq<char>)
    requires
        ids_valid(ids),
        ids.contains_key(a),
        ids.contains_key(b),
    ensures
        (ids[a] == ids[b]) <==> (a == b),
        ids[a] >= STARTING_STRING_ID,
        ids[b] >= STARTING_STRING_ID,
{
}

/// Two lookups in one pass, one after the other, give the same identifier
/// exactly when they look up the same string, and the second lookup leaves the
/// identifier of the first as it is.
pub proof fn lemma_lookups_distinct(ids: Map<Seq<char>, u64>, a: Seq<char>, b: Seq<char>)
    requires
        ids_valid(ids),
        STARTING_STRING_ID + ids.len() + 1 < u64::MAX,
    ensures
        ids_valid(interned(interned(ids, a), b)),
        interned(interned(ids, a), b)[a] == interned(ids, a)[a],
        (interned(interned(ids, a), b)[a] == interned(interned(ids, a), b)[b]) <==> (a == b),
        interned(ids, a)[a] >= STARTING_STRING_ID,
        interned(interned(ids, a), b)[b] >= STARTING_STRING_ID,
{
    lemma_interned_valid(ids, a);
    lemma_interned_valid(interned(ids, a), b);
    lemma_ids_distinct(interned(interned(ids, a), b), a, b);
}

} // verus!
