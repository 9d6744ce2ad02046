//! The wrapped keys that the local database holds, by the hash of the audio they open.
use vstd::hash_map::StringHashMap;
use vstd::prelude::*;

verus! {

/// A row of the key table: the hash of the audio and the text of its wrapped key.
pub open spec fn row_view(row: Option<(String, String)>) -> Option<(Seq<char>, Seq<char>)> {
    match row {
        Some((hash, ekey)) => Some((hash@, ekey@)),
        None => None,
    }
}

/// The keys in a list of rows: unreadable rows and empty keys do not count, and of two
/// rows with one hash the later one does.
pub open spec fn keys_in(rows: Seq<Option<(String, String)>>) -> Map<Seq<char>, Seq<char>>
    decreases rows.len(),
{
    if rows.len() == 0 {
        Map::empty()
    } else {
        let before = keys_in(rows.drop_last());
        match row_view(rows.last()) {
            Some((hash, ekey)) => if ekey.len() > 0 {
                before.insert(hash, ekey)
            } else {
                before
            },
            None => before,
        }
    }
}

/// Wrapped keys by audio hash.
pub struct EkeyMap {
    entries: StringHashMap<String>,
}

impl View for EkeyMap {
    type V = Map<Seq<char>, Seq<char>>;

    closed spec fn view(&self) -> Map<Seq<char>, Seq<char>> {
        self.entries@.map_values(|ekey: String| ekey@)
    }
}

impl EkeyMap {
    pub fn new() -> (map: Self)
        ensures
            map@ == Map::<Seq<char>, Seq<char>>::empty(),
    {
        let map = EkeyMap { entries: StringHashMap::new() };
        assert(map@ =~= Map::<Seq<char>, Seq<char>>::empty());
        map
    }

    /// The key for `hash`.
    pub fn get(&self, hash: &str) -> (ekey: Option<&String>)
        ensures
            match ekey {
                Some(text) => self@.dom().contains(hash@) && self@[hash@] == text@,
                None => !self@.dom().contains(hash@),
            },
    {
        self.entries.get(hash)
    }

    /// Adds a key, in place of an earlier one for the same hash.
    pub fn insert(&mut self, hash: String, ekey: String)
        ensures
            final(self)@ == old(self)@.insert(hash@, ekey@),
    {
        self.entries.insert(hash, ekey);
        assert(self@ =~= old(self)@.insert(hash@, ekey@));
    }
}

/// Gathers the keys from the rows of the key table, in their order; `None` stands for a
/// row that could not be read.
pub fn collect_ekeys(rows: Vec<Option<(String, String)>>) -> (map: EkeyMap)
    ensures
        map@ == keys_in(rows@),
{
    let mut map = EkeyMap::new();
    for i in 0..rows.len()
        invariant
            map@ == keys_in(rows@.subrange(0, i as int)),
    {
        assert(rows@.subrange(0, i + 1).drop_last() =~= rows@.subrange(0, i as int));
        match &rows[i] {
            Some((hash, ekey)) => {
                if !ekey.as_str().is_empty() {
                    map.insert(hash.clone(), ekey.clone());
                }
            },
            None => {},
        }
    }
    assert(rows@.subrange(0, rows@.len() as int) =~= rows@);
    map
}

/// What the search for the local key database came to.
pub enum KeyDatabase {
    /// There is none.
    Missing,
    /// The file could not be read, for the given reason.
    Unreadable(String),
    /// Its contents could not be queried, for the given reason.
    Invalid(String),
    /// The keys that it holds.
    Keys(EkeyMap),
}

/// Every key that is gathered stands in some row, and none is empty.
pub proof fn law_keys_come_from_rows(rows: Seq<Option<(String, String)>>, hash: Seq<char>)
    requires
        keys_in(rows).dom().contains(hash),
    ensures
        keys_in(rows)[hash].len() > 0,
        exists|i: int|
            0 <= i < rows.len() && #[trigger] row_view(rows[i]) == Some(
                (hash, keys_in(rows)[hash]),
            ),
    decreases rows.len(),
{
    let before = keys_in(rows.drop_last());
    let last = row_view(rows.last());
    if last matches Some((h, k)) && h == hash && k.len() > 0 {
        assert(row_view(rows[rows.len() - 1]) == Some((hash, keys_in(rows)[hash])));
    } else {
        law_keys_come_from_rows(rows.drop_last(), hash);
        let i = choose|i: int|
            0 <= i < rows.drop_last().len() && #[trigger] row_view(rows.drop_last()[i]) == Some(
                (hash, before[hash]),
            );
        assert(row_view(rows[i]) == Some((hash, keys_in(rows)[hash])));
    }
}

/// The last row that holds a key for a hash decides: that key is gathered.
pub proof fn law_last_row_wins(
    rows: Seq<Option<(String, String)>>,
    at: int,
    hash: Seq<char>,
    ekey: Seq<char>,
)
    requires
        0 <= at < rows.len(),
        row_view(rows[at]) == Some((hash, ekey)),
        ekey.len() > 0,
        forall|i: int, later: Seq<char>|
            at < i < rows.len() && #[trigger] row_view(rows[i]) == Some((hash, later))
                ==> #[trigger] later.len() == 0,
    ensures
        keys_in(rows).dom().contains(hash),
        keys_in(rows)[hash] == ekey,
    decreases rows.len(),
{
    let last = rows.len() - 1;
    if at < last {
        let before = rows.drop_last();
        assert forall|i: int, later: Seq<char>|
            at < i < before.len() && #[trigger] row_view(before[i]) == Some(
                (hash, later),
            ) implies #[trigger] later.len() == 0 by {
            assert(row_view(rows[i]) == Some((hash, later)));
        }
        law_last_row_wins(before, at, hash, ekey);
        assert(row_view(rows[last]) == row_view(rows.last()));
    }
}

} // verus!
