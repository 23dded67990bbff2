//! City records: the population filter and the split of the coordinate field.

use vstd::prelude::*;
use vstd::string::StrSliceExecFns;

verus! {

/// Cities with at most this many inhabitants are left out.
pub const MIN_POPULATION: u64 = 25_000;

/// One city as read from a record, before its coordinates are parsed.
#[derive(Debug)]
pub struct CityRecord {
    pub id: u64,
    pub name: String,
    pub pop: u64,
    /// Latitude and longitude, written `"<lat>,<lon>"`.
    pub coords: String,
}

/// Whether a city is large enough to keep.
pub open spec fn is_populous(c: CityRecord) -> bool {
    c.pop > MIN_POPULATION
}

/// Keeps the cities with more than `MIN_POPULATION` inhabitants, in their order.
pub fn retain_populous(rows: Vec<CityRecord>) -> (r: Vec<CityRecord>)
    ensures
        r@ == rows@.filter(|c: CityRecord| is_populous(c)),
        forall|k: int| 0 <= k < r@.len() ==> (#[trigger] r@[k]).pop > MIN_POPULATION,
{
    let ghost all = rows@;
    let mut kept: Vec<CityRecord> = Vec::new();
    for row in it: rows.into_iter()
        invariant
            it.seq() == all,
            kept@ == all.subrange(0, it.index() as int).filter(|c: CityRecord| is_populous(c)),
    {
        let ghost i = it.index() as int;
        proof {
            reveal(Seq::filter);
            assert(all.subrange(0, i + 1).drop_last() =~= all.subrange(0, i));
        }
        if row.pop > MIN_POPULATION {
            kept.push(row);
        }
    }
    proof {
        assert(all.subrange(0, all.len() as int) =~= all);
        all.filter_lemma(|c: CityRecord| is_populous(c));
    }
    kept
}

/// `k` is the place of the one comma in `s`.
pub open spec fn single_comma_at(s: Seq<char>, k: int) -> bool {
    &&& 0 <= k < s.len()
    &&& s[k] == ','
    &&& forall|j: int| 0 <= j < s.len() && j != k ==> s[j] != ','
}

/// Splits `"<lat>,<lon>"` at its comma into the two texts; `None` unless the
/// text holds exactly one comma.
pub fn split_coords(s: &str) -> (r: Option<(String, String)>)
    ensures
        match r {
            Some((lat, lon)) => exists|k: int|
                single_comma_at(s@, k) && lat@ == s@.subrange(0, k) && lon@ == s@.subrange(k + 1, s@.len() as int),
            None => forall|k: int| !single_comma_at(s@, k),
        },
{
    let n = s.unicode_len();
    let mut i: usize = 0;
    let mut found: Option<usize> = None;
    while i < n
        invariant
            n == s@.len(),
            i <= n,
            match found {
                Some(k) => k < i && s@[k as int] == ',' && forall|j: int|
                    0 <= j < i && j != k ==> s@[j] != ',',
                None => forall|j: int| 0 <= j < i ==> s@[j] != ',',
            },
        decreases n - i,
    {
        if s.get_char(i) == ',' {
            match found {
                Some(k) => {
                    proof {
                        assert forall|q: int| !single_comma_at(s@, q) by {
                            if single_comma_at(s@, q) {
                                if q == k {
                                    assert(s@[i as int] == ',');
                                } else {
                                    assert(s@[k as int] == ',');
                                }
                            }
                        }
                    }
                    return None;
                },
                None => {
                    found = Some(i);
                },
            }
        }
        i = i + 1;
    }
    match found {
        Some(k) => {
            let lat = s.substring_char(0, k).to_owned();
            let lon = s.substring_char(k + 1, n).to_owned();
            assert(single_comma_at(s@, k as int));
            Some((lat, lon))
        },
        None => {
            proof {
                assert forall|q: int| !single_comma_at(s@, q) by {
                    if single_comma_at(s@, q) {
                        assert(s@[q] == ',');
                    }
                }
            }
            None
        },
    }
}

} // verus!
