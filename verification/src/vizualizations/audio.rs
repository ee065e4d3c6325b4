use vstd::prelude::*;
use vstd::string::StringSliceAdditionalSpecFns;
use crate::utils::math::map_range;
use crate::utils::math::map_range_spec;

verus! {

/// How many notes the stops are played with.
pub const NOTES: usize = 9;

/// The name of each note, from the lowest to the highest.
pub open spec fn note_name_spec(note: int) -> Seq<char> {
    if note == 0 {
        "C#4/Db4"@
    } else if note == 1 {
        "D4"@
    } else if note == 2 {
        "E4"@
    } else if note == 3 {
        "F4"@
    } else if note == 4 {
        "G4"@
    } else if note == 5 {
        "A4"@
    } else if note == 6 {
        "A#4/Bb4"@
    } else if note == 7 {
        "C#5/Db5"@
    } else {
        "D5"@
    }
}

/// The name of a note, as the piano knows its keys, or `None` where there
/// is no such note.
pub fn note_name(note: usize) -> (name: Option<&'static str>)
    ensures
        match name {
            Some(name) => note < NOTES && name@ == note_name_spec(note as int),
            None => note >= NOTES,
        },
{
    match note {
        0 => Some("C#4/Db4"),
        1 => Some("D4"),
        2 => Some("E4"),
        3 => Some("F4"),
        4 => Some("G4"),
        5 => Some("A4"),
        6 => Some("A#4/Bb4"),
        7 => Some("C#5/Db5"),
        8 => Some("D5"),
        _ => None,
    }
}

/// The lengths of the parts that single spaces cut `name` into, where the
/// part that is being read has `run` bytes already. Two spaces in a row, or
/// a space at either end, enclose a part of no bytes.
pub open spec fn part_lengths_from(name: Seq<u8>, run: nat) -> Seq<nat>
    decreases name.len(),
{
    if name.len() == 0 {
        seq![run]
    } else if name[0] == 0x20 {
        seq![run] + part_lengths_from(name.drop_first(), 0)
    } else {
        part_lengths_from(name.drop_first(), run + 1)
    }
}

/// The lengths in bytes of the parts that single spaces cut `name` into.
pub open spec fn part_lengths(name: Seq<u8>) -> Seq<nat> {
    part_lengths_from(name, 0)
}

/// The notes that a stop is played with, one for each part of its name: a
/// part of `n` bytes gives the note `n % NOTES`.
pub fn keys_for(name: &str) -> (keys: Vec<usize>)
    ensures
        keys@.len() == part_lengths(name.spec_bytes()).len(),
        forall|k: int|
            0 <= k < keys@.len() ==> #[trigger] keys@[k] == part_lengths(name.spec_bytes())[k]
                % (NOTES as nat),
{
    let bytes = name.as_bytes();
    let mut keys: Vec<usize> = Vec::new();
    let mut run: usize = 0;
    let mut i: usize = 0;
    let ghost mut done: Seq<nat> = Seq::empty();
    proof {
        assert(bytes@.skip(0) == bytes@);
        assert(done + part_lengths(bytes@) == part_lengths(bytes@));
    }
    while i < bytes.len()
        invariant
            i <= bytes@.len(),
            run <= i,
            keys@.len() == done.len(),
            part_lengths(bytes@) == done + part_lengths_from(bytes@.skip(i as int), run as nat),
            forall|k: int| 0 <= k < keys@.len() ==> #[trigger] keys@[k] == done[k] % (NOTES as nat),
        decreases bytes@.len() - i,
    {
        proof {
            let rest = bytes@.skip(i as int);
            assert(rest[0] == bytes@[i as int]);
            assert(rest.drop_first() == bytes@.skip(i + 1));
        }
        if bytes[i] == 0x20 {
            proof {
                let next = part_lengths_from(bytes@.skip(i + 1), 0);
                assert(done + (seq![run as nat] + next) == done.push(run as nat) + next);
                done = done.push(run as nat);
            }
            keys.push(run % NOTES);
            run = 0;
        } else {
            run += 1;
        }
        i += 1;
    }
    proof {
        assert(bytes@.skip(i as int).len() == 0);
        assert(done + seq![run as nat] == done.push(run as nat));
        done = done.push(run as nat);
    }
    keys.push(run % NOTES);
    keys
}

/// The radius, in pixels, of the ring that a note is drawn with: from 50
/// for the lowest note to 200 for the highest, in even steps rounded down.
pub fn key_radius(note: usize) -> (radius: i64)
    requires
        note < NOTES,
    ensures
        radius == map_range_spec(note as int, 0, 8, 50, 200),
        radius == 50 + note * 150 / 8,
{
    map_range(note as i64, 0, 8, 50, 200)
}

} // verus!
