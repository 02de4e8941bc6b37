//! Parts of speech and the connection cost between neighbouring words.
use vstd::prelude::*;

use crate::text::same_text;

verus! {

/// The eleven parts of speech a dictionary entry can carry.
#[derive(Clone, Copy, Debug, PartialEq, Eq, Hash, Structural)]
pub enum PartOfSpeech {
    Noun,
    Verb,
    Adjective,
    Adverb,
    Particle,
    Auxiliary,
    Conjunction,
    Interjection,
    Prefix,
    Suffix,
    Other,
}

/// How many parts of speech there are.
pub const POS_COUNT: usize = 11;

/// Position of a part of speech in the connection cost table.
pub open spec fn pos_index(p: PartOfSpeech) -> int {
    match p {
        PartOfSpeech::Noun => 0,
        PartOfSpeech::Verb => 1,
        PartOfSpeech::Adjective => 2,
        PartOfSpeech::Adverb => 3,
        PartOfSpeech::Particle => 4,
        PartOfSpeech::Auxiliary => 5,
        PartOfSpeech::Conjunction => 6,
        PartOfSpeech::Interjection => 7,
        PartOfSpeech::Prefix => 8,
        PartOfSpeech::Suffix => 9,
        PartOfSpeech::Other => 10,
    }
}

/// The part of speech at a table position; positions past the table read as
/// `Other`.
pub open spec fn pos_at(i: int) -> PartOfSpeech {
    if i == 0 {
        PartOfSpeech::Noun
    } else if i == 1 {
        PartOfSpeech::Verb
    } else if i == 2 {
        PartOfSpeech::Adjective
    } else if i == 3 {
        PartOfSpeech::Adverb
    } else if i == 4 {
        PartOfSpeech::Particle
    } else if i == 5 {
        PartOfSpeech::Auxiliary
    } else if i == 6 {
        PartOfSpeech::Conjunction
    } else if i == 7 {
        PartOfSpeech::Interjection
    } else if i == 8 {
        PartOfSpeech::Prefix
    } else if i == 9 {
        PartOfSpeech::Suffix
    } else {
        PartOfSpeech::Other
    }
}

/// The name under which a part of speech is stored.
pub open spec fn pos_name(p: PartOfSpeech) -> Seq<char> {
    match p {
        PartOfSpeech::Noun => "Noun"@,
        PartOfSpeech::Verb => "Verb"@,
        PartOfSpeech::Adjective => "Adjective"@,
        PartOfSpeech::Adverb => "Adverb"@,
        PartOfSpeech::Particle => "Particle"@,
        PartOfSpeech::Auxiliary => "Auxiliary"@,
        PartOfSpeech::Conjunction => "Conjunction"@,
        PartOfSpeech::Interjection => "Interjection"@,
        PartOfSpeech::Prefix => "Prefix"@,
        PartOfSpeech::Suffix => "Suffix"@,
        PartOfSpeech::Other => "Other"@,
    }
}

/// Mean costs of the transitions out of `p` in a morphological dictionary, in
/// thousandths, in table order.
pub open spec fn mean_row(p: PartOfSpeech) -> Seq<int> {
    match p {
        PartOfSpeech::Noun => seq![
            5189, 5351, 5644, 6424, 1667, 3469, 6977, 6342, 6516, 0, 4184,
        ],
        PartOfSpeech::Verb => seq![
            6985, 4429, 5075, 6374, 3851, 1789, 7206, 5751, 6281, 6497, 5315,
        ],
        PartOfSpeech::Adjective => seq![
            5818, 5672, 5577, 6618, 3867, 3837, 4763, 5437, 5065, 4827, 5253,
        ],
        PartOfSpeech::Adverb => seq![
            5650, 4782, 4782, 4727, 4954, 5229, 5519, 4895, 4953, 5647, 5031,
        ],
        PartOfSpeech::Particle => seq![
            4679, 4135, 4874, 4517, 4768, 6287, 5106, 6452, 5281, 7354, 3885,
        ],
        PartOfSpeech::Auxiliary => seq![
            5737, 6142, 5698, 5695, 3632, 2531, 5273, 5205, 5472, 7476, 4917,
        ],
        PartOfSpeech::Conjunction => seq![
            4734, 5136, 5578, 3830, 5042, 5711, 5428, 5577, 4439, 4129, 4703,
        ],
        PartOfSpeech::Interjection => seq![
            7387, 5913, 5795, 5474, 5429, 5776, 4335, 3136, 5093, 7404, 3981,
        ],
        PartOfSpeech::Prefix => seq![
            2986, 4922, 4096, 6294, 7226, 5609, 5119, 5002, 4080, 3181, 5662,
        ],
        PartOfSpeech::Suffix => seq![
            6304, 5568, 6079, 6825, 1267, 3240, 7476, 6991, 8000, 1312, 3952,
        ],
        PartOfSpeech::Other => seq![
            4681, 6075, 5880, 3735, 5527, 6205, 3569, 3674, 4823, 5724, 4717,
        ],
    }
}

/// The cost that was set by hand for two parts of speech, in thousandths.
pub open spec fn override_of(l: PartOfSpeech, p: PartOfSpeech) -> Option<i64> {
    match (l, p) {
        (PartOfSpeech::Particle, PartOfSpeech::Noun) => Some(3500),
        (PartOfSpeech::Particle, PartOfSpeech::Adjective) => Some(2500),
        (PartOfSpeech::Particle, PartOfSpeech::Verb) => Some(3000),
        (PartOfSpeech::Particle, PartOfSpeech::Adverb) => Some(3500),
        (PartOfSpeech::Adjective, PartOfSpeech::Noun) => Some(2000),
        (PartOfSpeech::Adverb, PartOfSpeech::Verb) => Some(2500),
        (PartOfSpeech::Adverb, PartOfSpeech::Adjective) => Some(2500),
        (PartOfSpeech::Noun, PartOfSpeech::Suffix) => Some(2500),
        _ => None,
    }
}

/// The cost that was set by hand for two parts of speech.
pub fn hand_tuned(l: PartOfSpeech, p: PartOfSpeech) -> (cost: Option<i64>)
    ensures
        cost == override_of(l, p),
{
    match (l, p) {
        // Most openings after a case or topic particle; lower values let short
        // particles tear words apart.
        (PartOfSpeech::Particle, PartOfSpeech::Noun) => Some(3500),
        (PartOfSpeech::Particle, PartOfSpeech::Adjective) => Some(2500),
        (PartOfSpeech::Particle, PartOfSpeech::Verb) => Some(3000),
        (PartOfSpeech::Particle, PartOfSpeech::Adverb) => Some(3500),
        // Plain modification.
        (PartOfSpeech::Adjective, PartOfSpeech::Noun) => Some(2000),
        (PartOfSpeech::Adverb, PartOfSpeech::Verb) => Some(2500),
        (PartOfSpeech::Adverb, PartOfSpeech::Adjective) => Some(2500),
        // Natural, but not for free.
        (PartOfSpeech::Noun, PartOfSpeech::Suffix) => Some(2500),
        _ => None,
    }
}

/// Costs of the transitions out of `p`, in thousandths, in table order: the means,
/// with those costs in their place that were set by hand.
pub open spec fn connection_row(p: PartOfSpeech) -> Seq<int> {
    Seq::new(
        11,
        |i: int|
            match override_of(p, pos_at(i)) {
                Some(c) => c as int,
                None => mean_row(p)[i],
            },
    )
}

/// Cost of putting `cur` after `prev`, in thousandths; nothing at the start of
/// a sentence.
pub open spec fn connection(prev: Option<PartOfSpeech>, cur: PartOfSpeech) -> int {
    match prev {
        None => 0,
        Some(p) => connection_row(p)[pos_index(cur)],
    }
}

impl PartOfSpeech {
    /// Position of this part of speech in the connection cost table.
    pub fn idx(self) -> (i: usize)
        ensures
            i == pos_index(self),
            i < POS_COUNT,
    {
        match self {
            PartOfSpeech::Noun => 0,
            PartOfSpeech::Verb => 1,
            PartOfSpeech::Adjective => 2,
            PartOfSpeech::Adverb => 3,
            PartOfSpeech::Particle => 4,
            PartOfSpeech::Auxiliary => 5,
            PartOfSpeech::Conjunction => 6,
            PartOfSpeech::Interjection => 7,
            PartOfSpeech::Prefix => 8,
            PartOfSpeech::Suffix => 9,
            PartOfSpeech::Other => 10,
        }
    }

    /// The part of speech at table position `i`.
    pub fn from_idx(i: usize) -> (p: PartOfSpeech)
        requires
            i < POS_COUNT,
        ensures
            p == pos_at(i as int),
            pos_index(p) == i,
    {
        match i {
            0 => PartOfSpeech::Noun,
            1 => PartOfSpeech::Verb,
            2 => PartOfSpeech::Adjective,
            3 => PartOfSpeech::Adverb,
            4 => PartOfSpeech::Particle,
            5 => PartOfSpeech::Auxiliary,
            6 => PartOfSpeech::Conjunction,
            7 => PartOfSpeech::Interjection,
            8 => PartOfSpeech::Prefix,
            9 => PartOfSpeech::Suffix,
            _ => PartOfSpeech::Other,
        }
    }
}

/// Cost of putting `cur` after `prev`, in thousandths. There is none at the
/// start of a sentence, where `prev` is `None`.
pub fn connection_cost(prev: Option<PartOfSpeech>, cur: PartOfSpeech) -> (cost: i64)
    ensures
        cost == connection(prev, cur),
        0 <= cost <= 8000,
{
    let before: PartOfSpeech = match prev {
        None => {
            return 0;
        },
        Some(p) => p,
    };
    match hand_tuned(before, cur) {
        Some(c) => {
            return c;
        },
        None => {},
    }
    let row: [i64; 11] = match before {
        PartOfSpeech::Noun => [
            5189, 5351, 5644, 6424, 1667, 3469, 6977, 6342, 6516, 0, 4184,
        ],
        PartOfSpeech::Verb => [
            6985, 4429, 5075, 6374, 3851, 1789, 7206, 5751, 6281, 6497, 5315,
        ],
        PartOfSpeech::Adjective => [
            5818, 5672, 5577, 6618, 3867, 3837, 4763, 5437, 5065, 4827, 5253,
        ],
        PartOfSpeech::Adverb => [
            5650, 4782, 4782, 4727, 4954, 5229, 5519, 4895, 4953, 5647, 5031,
        ],
        PartOfSpeech::Particle => [
            4679, 4135, 4874, 4517, 4768, 6287, 5106, 6452, 5281, 7354, 3885,
        ],
        PartOfSpeech::Auxiliary => [
            5737, 6142, 5698, 5695, 3632, 2531, 5273, 5205, 5472, 7476, 4917,
        ],
        PartOfSpeech::Conjunction => [
            4734, 5136, 5578, 3830, 5042, 5711, 5428, 5577, 4439, 4129, 4703,
        ],
        PartOfSpeech::Interjection => [
            7387, 5913, 5795, 5474, 5429, 5776, 4335, 3136, 5093, 7404, 3981,
        ],
        PartOfSpeech::Prefix => [
            2986, 4922, 4096, 6294, 7226, 5609, 5119, 5002, 4080, 3181, 5662,
        ],
        PartOfSpeech::Suffix => [
            6304, 5568, 6079, 6825, 1267, 3240, 7476, 6991, 8000, 1312, 3952,
        ],
        PartOfSpeech::Other => [
            4681, 6075, 5880, 3735, 5527, 6205, 3569, 3674, 4823, 5724, 4717,
        ],
    };
    row[cur.idx()]
}

/// The name under which a part of speech is stored.
pub fn pos_to_str(pos: PartOfSpeech) -> (name: &'static str)
    ensures
        name@ == pos_name(pos),
{
    match pos {
        PartOfSpeech::Noun => "Noun",
        PartOfSpeech::Verb => "Verb",
        PartOfSpeech::Adjective => "Adjective",
        PartOfSpeech::Adverb => "Adverb",
        PartOfSpeech::Particle => "Particle",
        PartOfSpeech::Auxiliary => "Auxiliary",
        PartOfSpeech::Conjunction => "Conjunction",
        PartOfSpeech::Interjection => "Interjection",
        PartOfSpeech::Prefix => "Prefix",
        PartOfSpeech::Suffix => "Suffix",
        PartOfSpeech::Other => "Other",
    }
}

/// The part of speech stored under the name `s`; `None` when no part of
/// speech has that name.
pub fn str_to_pos(s: &str) -> (found: Option<PartOfSpeech>)
    ensures
        match found {
            Some(p) => s@ == pos_name(p),
            None => forall|p: PartOfSpeech| s@ != #[trigger] pos_name(p),
        },
{
    let mut i: usize = 0;
    while i < POS_COUNT
        invariant
            i <= POS_COUNT,
            forall|p: PartOfSpeech| pos_index(p) < i ==> s@ != #[trigger] pos_name(p),
        decreases POS_COUNT - i,
    {
        let p: PartOfSpeech = PartOfSpeech::from_idx(i);
        if same_text(s, pos_to_str(p)) {
            return Some(p);
        }
        proof {
            assert forall|q: PartOfSpeech| pos_index(q) < i + 1 implies s@ != #[trigger] pos_name(
                q,
            ) by {
                if pos_index(q) == i {
                    assert(q == p);
                }
            }
        }
        i = i + 1;
    }
    None
}

/// No two parts of speech share a name, so a stored name is read back as the
/// part of speech that was written.
pub proof fn law_names_are_distinct(p: PartOfSpeech, q: PartOfSpeech)
    ensures
        pos_name(p) == pos_name(q) ==> p == q,
{
    reveal_strlit("Noun");
    reveal_strlit("Verb");
    reveal_strlit("Adjective");
    reveal_strlit("Adverb");
    reveal_strlit("Particle");
    reveal_strlit("Auxiliary");
    reveal_strlit("Conjunction");
    reveal_strlit("Interjection");
    reveal_strlit("Prefix");
    reveal_strlit("Suffix");
    reveal_strlit("Other");
    assert(pos_name(p).len() != pos_name(q).len() || pos_name(p)[0] != pos_name(q)[0]
        || pos_name(p)[1] != pos_name(q)[1] || pos_name(p)[2] != pos_name(q)[2] || p == q);
}

/// Table positions and parts of speech correspond one to one.
pub proof fn law_index_round_trip(p: PartOfSpeech, i: int)
    ensures
        pos_at(pos_index(p)) == p,
        0 <= i < POS_COUNT ==> pos_index(pos_at(i)) == i,
{
}

/// At the start of a sentence every word is free. Behind another word the costs that
/// were set by hand count where there are any, else the means.
pub proof fn law_connection_costs(p: PartOfSpeech, q: PartOfSpeech)
    ensures
        connection(None, q) == 0,
        p is Particle && (q is Noun || q is Adverb) ==> connection(Some(p), q) == 3500,
        p is Particle && q is Adjective ==> connection(Some(p), q) == 2500,
        p is Particle && q is Verb ==> connection(Some(p), q) == 3000,
        p is Adjective && q is Noun ==> connection(Some(p), q) == 2000,
        p is Adverb && (q is Verb || q is Adjective) ==> connection(Some(p), q) == 2500,
        p is Noun && q is Suffix ==> connection(Some(p), q) == 2500,
        !(p is Particle && (q is Noun || q is Adverb || q is Adjective || q is Verb)) && !(
        p is Adjective && q is Noun) && !(p is Adverb && (q is Verb || q is Adjective)) && !(
        p is Noun && q is Suffix) ==> connection(Some(p), q) == mean_row(p)[pos_index(q)],
{
    law_index_round_trip(q, 0);
}

} // verus!
