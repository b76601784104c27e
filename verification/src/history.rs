//! The audit trail: one entry for every change of the catalog, never changed
//! and never removed.

use crate::catalog::{Catalog, CatalogView};
use crate::error::StoreError;
use crate::order::{arranged, arranges, lemma_arranged_is, lemma_arranges_more, strict_order};
use crate::search::{page_of, requested_page, Page};
use vstd::prelude::*;
use vstd::string::*;

verus! {

/// The kind of change that an entry of the trail records.
#[allow(non_camel_case_types)]
#[derive(Debug, Clone, Copy, PartialEq, Eq, Structural)]
pub enum Event {
    CREATED,
    UPDATED,
    DELETED,
    SETTINGS,
}

/// The name under which a kind of change is stored and shown.
pub open spec fn event_name(event: Event) -> Seq<char> {
    match event {
        Event::CREATED => "CREATED"@,
        Event::UPDATED => "UPDATED"@,
        Event::DELETED => "DELETED"@,
        Event::SETTINGS => "SETTINGS"@,
    }
}

/// The kind of change that `name` names, if it names one.
pub open spec fn event_named(name: Seq<char>) -> Option<Event> {
    if name == "CREATED"@ {
        Some(Event::CREATED)
    } else if name == "UPDATED"@ {
        Some(Event::UPDATED)
    } else if name == "DELETED"@ {
        Some(Event::DELETED)
    } else if name == "SETTINGS"@ {
        Some(Event::SETTINGS)
    } else {
        None
    }
}

impl Event {
    /// The name of this kind of change.
    pub fn name(&self) -> (name: &'static str)
        ensures
            name@ == event_name(*self),
    {
        match self {
            Event::CREATED => "CREATED",
            Event::UPDATED => "UPDATED",
            Event::DELETED => "DELETED",
            Event::SETTINGS => "SETTINGS",
        }
    }

    /// The name of this kind of change, as a string of its own.
    pub fn to_string(&self) -> (name: String)
        ensures
            name@ == event_name(*self),
    {
        self.name().to_owned()
    }

    /// The kind of change that `name` names: the inverse of [`Event::name`].
    pub fn from_name(name: &str) -> (event: Option<Event>)
        ensures
            event == event_named(name@),
    {
        if crate::text::str_eq(name, "CREATED") {
            Some(Event::CREATED)
        } else if crate::text::str_eq(name, "UPDATED") {
            Some(Event::UPDATED)
        } else if crate::text::str_eq(name, "DELETED") {
            Some(Event::DELETED)
        } else if crate::text::str_eq(name, "SETTINGS") {
            Some(Event::SETTINGS)
        } else {
            None
        }
    }
}

/// Every kind of change is found again by its name.
pub proof fn lemma_event_names(event: Event)
    ensures
        event_named(event_name(event)) == Some(event),
{
    reveal_strlit("CREATED");
    reveal_strlit("UPDATED");
    reveal_strlit("DELETED");
    reveal_strlit("SETTINGS");
    assert("CREATED"@[0] != "UPDATED"@[0]);
    assert("CREATED"@[0] != "DELETED"@[0]);
    assert("CREATED"@[0] != "SETTINGS"@[0]);
    assert("UPDATED"@[0] != "DELETED"@[0]);
    assert("UPDATED"@[0] != "SETTINGS"@[0]);
    assert("DELETED"@[0] != "SETTINGS"@[0]);
}

/// One entry of the trail: what kind of change happened, and when, in
/// milliseconds since the Unix epoch.
#[derive(Debug, Clone, Copy, PartialEq, Eq, Structural)]
pub struct History {
    pub id: i64,
    pub event: Event,
    pub datetime: i64,
}

/// The number of entries that a search shows where the request names no
/// limit.
pub const HISTORY_PAGE: usize = 20;

/// The time that the system clock shows, as `chrono` counts it: the
/// `chrono::DateTime<Utc>` of `std::time::SystemTime::now`, read in
/// milliseconds since the Unix epoch with `DateTime::timestamp_millis`.
/// Nothing is claimed of the result: two readings of the clock may give any
/// two numbers. `chrono` holds times up to some 262,000 years from the
/// epoch, and the conversion stops the program where the system clock is
/// set beyond them.
#[verifier::external_body]
pub(crate) fn utc_now() -> i64 {
    chrono::DateTime::<chrono::Utc>::from(std::time::SystemTime::now()).timestamp_millis()
}

/// The catalog `c` after an entry for `event` at `datetime` was written.
///
/// Writing the trail never fails: where the identities of the trail have
/// run out, the entry is dropped and the catalog stays as it is.
pub open spec fn with_entry(c: CatalogView, event: Event, datetime: i64) -> CatalogView {
    if c.next_history_id < i64::MAX {
        CatalogView {
            history: c.history.push(History { id: c.next_history_id, event, datetime }),
            next_history_id: (c.next_history_id + 1) as i64,
            ..c
        }
    } else {
        c
    }
}

/// Whether `after` is `before` with an entry for `event` written at some
/// time.
pub open spec fn logged(before: CatalogView, after: CatalogView, event: Event) -> bool {
    exists|datetime: i64| after == #[trigger] with_entry(before, event, datetime)
}

/// The place of a kind of change among entries of the same time and
/// identity.
pub open spec fn event_rank(event: Event) -> int {
    match event {
        Event::CREATED => 0,
        Event::UPDATED => 1,
        Event::DELETED => 2,
        Event::SETTINGS => 3,
    }
}

/// Whether `a` comes before `b` in a listing of the trail: by time, and
/// among entries of one time by identity.
pub open spec fn earlier(a: History, b: History) -> bool {
    ||| a.datetime < b.datetime
    ||| a.datetime == b.datetime && a.id < b.id
    ||| a.datetime == b.datetime && a.id == b.id && event_rank(a.event) < event_rank(b.event)
}

/// The order of a listing of the trail.
pub open spec fn by_time() -> spec_fn(History, History) -> bool {
    |a: History, b: History| earlier(a, b)
}

/// The entries of `history` that were written after `since`, or all of them
/// where `since` is absent.
pub open spec fn entries_since(history: Seq<History>, since: Option<i64>) -> Seq<History> {
    history.filter(|entry: History| since is None || entry.datetime > since->0)
}

/// What a search of the trail finds: the entries after `since`, in order of
/// time, cut to the requested page.
pub open spec fn history_found(
    c: CatalogView,
    since: Option<i64>,
    offset: Option<i32>,
    limit: Option<Seq<char>>,
) -> Result<Seq<History>, StoreError> {
    match requested_page(offset, limit, HISTORY_PAGE) {
        Err(e) => Err(e),
        Ok(page) => Ok(page_of(arranged(entries_since(c.history, since), by_time()), page)),
    }
}

/// The order of a listing is a strict total order.
pub proof fn lemma_by_time_is_order()
    ensures
        strict_order(by_time()),
{
    let lt = by_time();
    assert forall|a: History, b: History| a != b implies #[trigger] lt(a, b) || lt(b, a) by {
        if a.datetime == b.datetime && a.id == b.id {
            assert(a.event != b.event);
        }
    }
}

fn is_earlier(a: &History, b: &History) -> (r: bool)
    ensures
        r == earlier(*a, *b),
{
    if a.datetime != b.datetime {
        a.datetime < b.datetime
    } else if a.id != b.id {
        a.id < b.id
    } else {
        let ra: u8 = match a.event {
            Event::CREATED => 0,
            Event::UPDATED => 1,
            Event::DELETED => 2,
            Event::SETTINGS => 3,
        };
        let rb: u8 = match b.event {
            Event::CREATED => 0,
            Event::UPDATED => 1,
            Event::DELETED => 2,
            Event::SETTINGS => 3,
        };
        ra < rb
    }
}

/// The place of `entry` in `out`: behind every entry that comes before it.
fn place_by_time(out: &Vec<History>, entry: &History) -> (p: usize)
    ensures
        p <= out.len(),
        forall|k: int| 0 <= k < p ==> earlier(#[trigger] out@[k], *entry),
        p < out.len() ==> !earlier(out@[p as int], *entry),
{
    let mut p: usize = 0;
    while p < out.len() && is_earlier(&out[p], entry)
        invariant
            p <= out.len(),
            forall|k: int| 0 <= k < p ==> earlier(#[trigger] out@[k], *entry),
        decreases out.len() - p,
    {
        p += 1;
    }
    p
}

impl History {
    /// Writes an entry for `event` at `datetime` to the trail.
    pub fn insert(catalog: &mut Catalog, event: Event, datetime: i64)
        requires
            old(catalog).wf(),
        ensures
            final(catalog)@ == with_entry(old(catalog)@, event, datetime),
            final(catalog).wf(),
    {
        proof {
            catalog.unfold();
        }
        if catalog.next_history_id < i64::MAX {
            let entry = History { id: catalog.next_history_id, event, datetime };
            catalog.history.push(entry);
            catalog.next_history_id = catalog.next_history_id + 1;
        }
        proof {
            catalog.unfold();
        }
    }

    /// Records that something was made, at the time the clock shows.
    pub fn created(catalog: &mut Catalog)
        requires
            old(catalog).wf(),
        ensures
            logged(old(catalog)@, final(catalog)@, Event::CREATED),
            final(catalog).wf(),
    {
        let now = utc_now();
        History::insert(catalog, Event::CREATED, now);
    }

    /// Records that something was changed, at the time the clock shows.
    pub fn updated(catalog: &mut Catalog)
        requires
            old(catalog).wf(),
        ensures
            logged(old(catalog)@, final(catalog)@, Event::UPDATED),
            final(catalog).wf(),
    {
        let now = utc_now();
        History::insert(catalog, Event::UPDATED, now);
    }

    /// Records that something was removed, at the time the clock shows.
    pub fn deleted(catalog: &mut Catalog)
        requires
            old(catalog).wf(),
        ensures
            logged(old(catalog)@, final(catalog)@, Event::DELETED),
            final(catalog).wf(),
    {
        let now = utc_now();
        History::insert(catalog, Event::DELETED, now);
    }

    /// Records that the settings were changed, at the time the clock shows.
    pub fn settings(catalog: &mut Catalog)
        requires
            old(catalog).wf(),
        ensures
            logged(old(catalog)@, final(catalog)@, Event::SETTINGS),
            final(catalog).wf(),
    {
        let now = utc_now();
        History::insert(catalog, Event::SETTINGS, now);
    }

    /// All entries, in the order in which they were written.
    pub fn read_all(catalog: &Catalog) -> (all: Result<Vec<History>, StoreError>)
        requires
            catalog.wf(),
        ensures
            all matches Ok(entries) && entries@ == catalog@.history,
    {
        proof {
            catalog.unfold();
        }
        let mut out: Vec<History> = Vec::new();
        let mut i: usize = 0;
        while i < catalog.history.len()
            invariant
                i <= catalog.history.len(),
                out@ == catalog.history@.take(i as int),
            decreases catalog.history.len() - i,
        {
            out.push(catalog.history[i]);
            proof {
                assert(catalog.history@.take(i + 1) == catalog.history@.take(i as int).push(
                    catalog.history@[i as int],
                ));
            }
            i += 1;
        }
        proof {
            assert(catalog.history@.take(i as int) == catalog.history@);
        }
        Ok(out)
    }

    /// Lists the trail: the entries written after `since`, or all of them,
    /// in order of time, cut to the page that `offset` and `limit` ask for.
    /// A request without a limit is shown [`HISTORY_PAGE`] entries.
    pub fn search(
        catalog: &Catalog,
        since: Option<i64>,
        offset: Option<i32>,
        limit: Option<&str>,
    ) -> (found: Result<Vec<History>, StoreError>)
        requires
            catalog.wf(),
        ensures
            match found {
                Ok(entries) => history_found(catalog@, since, offset, limit.deep_view()) == Ok::<
                    Seq<History>,
                    StoreError,
                >(entries@),
                Err(e) => history_found(catalog@, since, offset, limit.deep_view()) == Err::<
                    Seq<History>,
                    StoreError,
                >(e),
            },
    {
        let page = match Page::parse(offset, limit, HISTORY_PAGE) {
            Ok(page) => page,
            Err(e) => {
                return Err(e);
            },
        };
        proof {
            catalog.unfold();
        }
        let ghost wanted = |entry: History| since is None || entry.datetime > since->0;
        let ghost all = catalog.history@;
        let mut out: Vec<History> = Vec::new();
        let n = catalog.history.len();
        let mut i: usize = 0;
        proof {
            assert(all.take(0).filter(wanted) =~= Seq::<History>::empty()) by {
                reveal(Seq::filter);
            }
        }
        while i < n
            invariant
                i <= n == all.len(),
                all == catalog.history@,
                wanted == |entry: History| since is None || entry.datetime > since->0,
                forall|a: int, b: int| 0 <= a < b < all.len() ==> (#[trigger] all[a]).id < (
                #[trigger] all[b]).id,
                arranges(out@, all.take(i as int).filter(wanted), by_time()),
            decreases n - i,
        {
            let entry = catalog.history[i];
            let keep = match since {
                None => true,
                Some(t) => entry.datetime > t,
            };
            let ghost seen = all.take(i as int).filter(wanted);
            proof {
                assert(all.take(i + 1) == all.take(i as int).push(all[i as int]));
                all.take(i as int).lemma_filter_push(entry, wanted);
            }
            if keep {
                let p = place_by_time(&out, &entry);
                proof {
                    if seen.contains(entry) {
                        all.take(i as int).lemma_filter_contains_rev(wanted, entry);
                        let k = choose|k: int|
                            0 <= k < all.take(i as int).len() && all.take(i as int)[k] == entry;
                        assert(all[k].id < all[i as int].id);
                    }
                    lemma_by_time_is_order();
                    lemma_arranges_more(out@, seen, p as int, entry, by_time());
                }
                out.insert(p, entry);
            }
            i += 1;
        }
        proof {
            assert(all.take(n as int) == all);
            lemma_by_time_is_order();
            lemma_arranged_is(out@, entries_since(all, since), by_time());
        }
        Ok(page.cut(out))
    }
}

} // verus!
