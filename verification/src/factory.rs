//! Engines for the input bus, and how the bus is found.
use vstd::prelude::*;

use crate::config::BonolithConfig;
use crate::gate;
use crate::gate::{BonolithEngine, FORCE_WINDOW_MS};
use crate::scan;
use crate::scan::{copied_between, lines, push_decimal};
use crate::text::{begins_with, chars_of, text_of};

verus! {

/// Makes the engines that the bus asks for. Every one gets a place of its own,
/// so that no two windows share their state.
pub struct BonolithFactory {
    config: BonolithConfig,
    made: u64,
}

/// Lets another program force input on for a while.
pub struct BonolithControl {
    /// Until when input is forced on, in milliseconds.
    pub force: Option<u64>,
}

/// The place of an engine on the bus.
pub open spec fn path_of(id: nat) -> Seq<char> {
    "/org/freedesktop/IBus/Engine/"@ + scan::decimal(id)
}

/// The place of an engine on the bus.
pub fn engine_path(id: u64) -> (path: String)
    ensures
        path@ == path_of(id as nat),
{
    let mut path: String = "/org/freedesktop/IBus/Engine/".to_owned();
    push_decimal(&mut path, id);
    path
}

impl BonolithFactory {
    /// The settings that the engines get.
    pub closed spec fn settings(self) -> BonolithConfig {
        self.config
    }

    /// How many engines were made.
    pub closed spec fn count(self) -> u64 {
        self.made
    }

    /// A factory that has made no engine yet.
    pub fn new(config: BonolithConfig) -> (factory: BonolithFactory)
        ensures
            factory.settings() == config,
            factory.count() == 0,
    {
        BonolithFactory { config, made: 0 }
    }

    /// An engine with input switched off, at a place of its own.
    pub fn create_engine(&mut self) -> (engine: BonolithEngine)
        ensures
            final(self).settings() == old(self).settings(),
            final(self).count() == vstd::wrapping::u64_specs::wrapping_add(old(self).count(), 1),
            engine@ == (gate::GateView {
                enabled: false,
                toggle_keys: crate::config::compiled(old(self).settings()@),
                pending_release: Set::empty(),
                disabled_at: None,
                object_path: path_of(old(self).count() as nat),
            }),
    {
        let path: String = engine_path(self.made);
        self.made = self.made.wrapping_add(1);
        BonolithEngine::new(&self.config, path)
    }
}

/// Two engines of different number have different places.
pub proof fn law_paths_differ(a: nat, b: nat)
    requires
        a != b,
    ensures
        path_of(a) != path_of(b),
{
    let head = "/org/freedesktop/IBus/Engine/"@;
    scan::law_decimal_round_trip(a);
    scan::law_decimal_round_trip(b);
    if path_of(a) == path_of(b) {
        assert(path_of(a).skip(head.len() as int) =~= scan::decimal(a));
        assert(path_of(b).skip(head.len() as int) =~= scan::decimal(b));
    }
}

impl BonolithControl {
    /// Nothing is forced.
    pub fn new() -> (control: BonolithControl)
        ensures
            control.force is None,
    {
        BonolithControl { force: None }
    }

    /// Forces input on for five seconds from now.
    pub fn force_enable(&mut self, now: u64)
        ensures
            final(self).force == Some(
                (if now + 5000 <= u64::MAX {
                    (now + 5000) as u64
                } else {
                    u64::MAX
                }),
            ),
    {
        self.force = Some(now.saturating_add(FORCE_WINDOW_MS));
    }

    /// Forces nothing any more.
    pub fn force_enable_clear(&mut self)
        ensures
            final(self).force is None,
    {
        self.force = None;
    }
}

/// A file that may name the address of the bus.
pub struct BusFile {
    /// When it was last written.
    pub modified: u128,
    pub contents: String,
}

/// The address that a line names, if it names one.
pub open spec fn address_in_line(line: Seq<char>) -> Option<Seq<char>> {
    let head = "IBUS_ADDRESS="@;
    if head.is_prefix_of(line) && line.len() > head.len() {
        Some(line.skip(head.len() as int))
    } else {
        None
    }
}

/// The first address that the lines name.
pub open spec fn first_address(all: Seq<Seq<char>>) -> Option<Seq<char>>
    decreases all.len(),
{
    if all.len() == 0 {
        None
    } else {
        match first_address(all.drop_last()) {
            Some(a) => Some(a),
            None => address_in_line(all.last()),
        }
    }
}

/// The address in the file that was written last, the earlier file among
/// equals, and when that was.
pub open spec fn newest_address(files: Seq<BusFile>) -> Option<(u128, Seq<char>)>
    decreases files.len(),
{
    if files.len() == 0 {
        None
    } else {
        let before = newest_address(files.drop_last());
        let last = files.last();
        match first_address(scan::lines_of(last.contents@)) {
            Some(a) => match before {
                Some(b) => if last.modified > b.0 {
                    Some((last.modified, a))
                } else {
                    Some(b)
                },
                None => Some((last.modified, a)),
            },
            None => before,
        }
    }
}

/// The address of the bus: the one that was handed over, unless it is empty, or
/// else the one in the newest file that names one.
pub open spec fn bus_address(given: Option<Seq<char>>, files: Seq<BusFile>) -> Option<Seq<char>> {
    match given {
        Some(a) if a.len() > 0 => Some(a),
        _ => match newest_address(files) {
            Some(b) => Some(b.1),
            None => None,
        },
    }
}

/// The address that a line names, if it names one.
fn line_address(line: &Vec<char>) -> (address: Option<String>)
    ensures
        match address {
            Some(a) => address_in_line(line@) == Some(a@),
            None => address_in_line(line@) is None,
        },
{
    let head: Vec<char> = chars_of("IBUS_ADDRESS=");
    if line.len() > head.len() && begins_with(line.as_slice(), head.as_slice()) {
        let rest: Vec<char> = copied_between(line.as_slice(), head.len(), line.len());
        assert(rest@ =~= line@.skip(head@.len() as int));
        Some(text_of(rest.as_slice()))
    } else {
        None
    }
}

/// The first address that a text names.
fn file_address(contents: &str) -> (address: Option<String>)
    ensures
        match address {
            Some(a) => first_address(scan::lines_of(contents@)) == Some(a@),
            None => first_address(scan::lines_of(contents@)) is None,
        },
{
    let chars: Vec<char> = chars_of(contents);
    let all: Vec<Vec<char>> = lines(chars.as_slice());
    let ghost av = scan::text_views(all@);
    let mut i: usize = 0;
    while i < all.len()
        invariant
            i <= all@.len(),
            av == scan::text_views(all@),
            av == scan::lines_of(contents@),
            first_address(av.take(i as int)) is None,
        decreases all@.len() - i,
    {
        proof {
            assert(av.take(i + 1).drop_last() =~= av.take(i as int));
            assert(av.take(i + 1).last() == all@[i as int]@);
        }
        match line_address(&all[i]) {
            Some(a) => {
                proof {
                    lemma_first_address(av, i + 1);
                }
                return Some(a);
            },
            None => {},
        }
        i = i + 1;
    }
    assert(av.take(i as int) =~= av);
    None
}

proof fn lemma_first_address(all: Seq<Seq<char>>, n: int)
    requires
        0 <= n <= all.len(),
        first_address(all.take(n)) is Some,
    ensures
        first_address(all) == first_address(all.take(n)),
    decreases all.len() - n,
{
    if n < all.len() {
        assert(all.take(n + 1).drop_last() =~= all.take(n));
        lemma_first_address(all, n + 1);
    } else {
        assert(all.take(n) =~= all);
    }
}

/// The address of the bus. `given` is the address that was handed over, `files`
/// are those that may name one.
pub fn get_ibus_address(given: Option<String>, files: &Vec<BusFile>) -> (address: Option<String>)
    ensures
        match address {
            Some(a) => bus_address(
                match given {
                    Some(g) => Some(g@),
                    None => None,
                },
                files@,
            ) == Some(a@),
            None => bus_address(
                match given {
                    Some(g) => Some(g@),
                    None => None,
                },
                files@,
            ) is None,
        },
{
    match given {
        Some(g) => {
            if !g.as_str().is_empty() {
                return Some(g);
            }
        },
        None => {},
    }
    let mut newest: Option<(u128, String)> = None;
    let mut i: usize = 0;
    while i < files.len()
        invariant
            i <= files@.len(),
            match newest {
                Some((t, a)) => newest_address(files@.take(i as int)) == Some((t, a@)),
                None => newest_address(files@.take(i as int)) is None,
            },
        decreases files@.len() - i,
    {
        proof {
            assert(files@.take(i + 1).drop_last() =~= files@.take(i as int));
            assert(files@.take(i + 1).last() == files@[i as int]);
        }
        match file_address(files[i].contents.as_str()) {
            Some(a) => {
                let newer: bool = match &newest {
                    Some((t, _)) => files[i].modified > *t,
                    None => true,
                };
                if newer {
                    newest = Some((files[i].modified, a));
                }
            },
            None => {},
        }
        i = i + 1;
    }
    assert(files@.take(i as int) =~= files@);
    match newest {
        Some((_, a)) => Some(a),
        None => None,
    }
}

/// A line names an address if it starts with the name of the setting and an equals
/// sign and goes on behind it; what goes on is the address.
pub proof fn law_line_names_address(line: Seq<char>, address: Seq<char>)
    ensures
        address.len() > 0 ==> address_in_line("IBUS_ADDRESS="@ + address) == Some(address),
        address_in_line(line) matches Some(a) ==> a.len() > 0 && line == "IBUS_ADDRESS="@ + a,
{
    let head = "IBUS_ADDRESS="@;
    let whole = head + address;
    assert(head.is_prefix_of(whole));
    assert(whole.skip(head.len() as int) =~= address);
    if address_in_line(line) is Some {
        assert(line =~= head + line.skip(head.len() as int));
    }
}

/// The first line that names an address counts.
pub proof fn law_first_address_counts(all: Seq<Seq<char>>, i: int)
    requires
        0 <= i < all.len(),
        address_in_line(all[i]) is Some,
        forall|j: int| 0 <= j < i ==> (#[trigger] address_in_line(all[j])) is None,
    ensures
        first_address(all) == address_in_line(all[i]),
    decreases all.len(),
{
    if i < all.len() - 1 {
        assert forall|j: int| 0 <= j < i implies (#[trigger] address_in_line(
            all.drop_last()[j],
        )) is None by {
            assert(all.drop_last()[j] == all[j]);
        }
        law_first_address_counts(all.drop_last(), i);
    } else {
        lemma_no_address(all.drop_last());
    }
}

proof fn lemma_no_address(all: Seq<Seq<char>>)
    requires
        forall|j: int| 0 <= j < all.len() ==> (#[trigger] address_in_line(all[j])) is None,
    ensures
        first_address(all) is None,
    decreases all.len(),
{
    if all.len() > 0 {
        let rest = all.drop_last();
        assert forall|j: int| 0 <= j < rest.len() implies (#[trigger] address_in_line(rest[j]))
            is None by {
            assert(rest[j] == all[j]);
        }
        lemma_no_address(rest);
        assert(address_in_line(all[all.len() - 1]) is None);
    }
}

/// The address of the file that was written last counts, the earlier one of files
/// written at the same time. An address that is given goes before all files.
pub proof fn law_newest_file_counts(files: Seq<BusFile>, i: int, given: Option<Seq<char>>)
    requires
        0 <= i < files.len(),
        first_address(scan::lines_of(files[i].contents@)) is Some,
        forall|j: int|
            0 <= j < files.len() && j != i ==> first_address(
                scan::lines_of((#[trigger] files[j]).contents@),
            ) is None || files[j].modified < files[i].modified || (files[j].modified
                == files[i].modified && i < j),
    ensures
        newest_address(files) == Some(
            (files[i].modified, first_address(scan::lines_of(files[i].contents@))->0),
        ),
        bus_address(given, files) == (if given is Some && given->0.len() > 0 {
            given
        } else {
            first_address(scan::lines_of(files[i].contents@))
        }),
{
    lemma_newest(files, i, files.len() as int);
    assert(files.take(files.len() as int) =~= files);
}

proof fn lemma_newest(files: Seq<BusFile>, i: int, n: int)
    requires
        0 <= i < files.len(),
        0 <= n <= files.len(),
        first_address(scan::lines_of(files[i].contents@)) is Some,
        forall|j: int|
            0 <= j < files.len() && j != i ==> first_address(
                scan::lines_of((#[trigger] files[j]).contents@),
            ) is None || files[j].modified < files[i].modified || (files[j].modified
                == files[i].modified && i < j),
    ensures
        n > i ==> newest_address(files.take(n)) == Some(
            (files[i].modified, first_address(scan::lines_of(files[i].contents@))->0),
        ),
        n <= i ==> (newest_address(files.take(n)) matches Some(b) ==> b.0 < files[i].modified),
    decreases n,
{
    if n > 0 {
        lemma_newest(files, i, n - 1);
        assert(files.take(n).drop_last() =~= files.take(n - 1));
        assert(files.take(n).last() == files[n - 1]);
    }
}

/// Without an address that is given and without a file that names one there is none.
pub proof fn law_no_address_is_made_up(files: Seq<BusFile>)
    requires
        forall|j: int|
            0 <= j < files.len() ==> first_address(
                scan::lines_of((#[trigger] files[j]).contents@),
            ) is None,
    ensures
        bus_address(None, files) is None,
    decreases files.len(),
{
    if files.len() > 0 {
        let rest = files.drop_last();
        assert forall|j: int| 0 <= j < rest.len() implies first_address(
            scan::lines_of((#[trigger] rest[j]).contents@),
        ) is None by {
            assert(rest[j] == files[j]);
        }
        law_no_address_is_made_up(rest);
        assert(first_address(scan::lines_of(files[files.len() - 1].contents@)) is None);
    }
}

} // verus!
