//! Room identifiers: a `room-` prefix followed by five characters drawn
//! base-36 from a seed.  Fresh seeds come from the process's random
//! generator; the registry retries until the derived id is unused.

use vstd::prelude::*;

verus! {

/// Relies on rand::random to draw a fresh seed; nothing is assumed of
/// the value drawn.
pub assume_specification<T>[ rand::random::<T> ]() -> (r: T)
    where
        rand::distributions::Standard: rand::distributions::Distribution<T>,
;

/// The alphabet a room identifier's trailing characters are drawn from.
pub open spec fn id_alphabet() -> Seq<char> {
    "abcdefghijklmnopqrstuvwxyz0123456789"@
}

/// The room identifier derived from `seed`: `room-` followed by the five
/// low base-36 digits of the seed, least significant first.
pub open spec fn room_id_seq(seed: u64) -> Seq<char> {
    let s0 = seed as int;
    let s1 = s0 / 36;
    let s2 = s1 / 36;
    let s3 = s2 / 36;
    let s4 = s3 / 36;
    "room-"@ + seq![
        id_alphabet()[s0 % 36],
        id_alphabet()[s1 % 36],
        id_alphabet()[s2 % 36],
        id_alphabet()[s3 % 36],
        id_alphabet()[s4 % 36],
    ]
}

/// Builds the room identifier that `seed` determines.
pub fn room_id_from_seed(seed: u64) -> (id: String)
    ensures
        id@ == room_id_seq(seed),
{
    let alpha = "abcdefghijklmnopqrstuvwxyz0123456789";
    proof {
        reveal_strlit("abcdefghijklmnopqrstuvwxyz0123456789");
        reveal_strlit("room-");
        assert(alpha@.len() == 36);
        assert(alpha.is_ascii());
    }
    let mut id = String::from_str("room-");
    let mut n: u64 = seed;
    let c0 = (n % 36) as usize;
    id.append(alpha.substring_ascii(c0, c0 + 1));
    n = n / 36;
    let c1 = (n % 36) as usize;
    id.append(alpha.substring_ascii(c1, c1 + 1));
    n = n / 36;
    let c2 = (n % 36) as usize;
    id.append(alpha.substring_ascii(c2, c2 + 1));
    n = n / 36;
    let c3 = (n % 36) as usize;
    id.append(alpha.substring_ascii(c3, c3 + 1));
    n = n / 36;
    let c4 = (n % 36) as usize;
    id.append(alpha.substring_ascii(c4, c4 + 1));
    proof {
        assert(id@ =~= room_id_seq(seed));
    }
    id
}

} // verus!
