//! The scheduling-unit lifecycle: generating paired timer and service unit
//! texts, deciding when the service write may be skipped, and reconciling
//! orphaned services against the live timers.
//!
//! The manager is the single owner of the unit namespace. Every function
//! here maps plain values to plain values; the caller performs the file
//! writes, deletes and directory scans the results call for.

use vstd::prelude::*;

use crate::errors::InvalidArgError;
use crate::text::{find_in_text, find_sub, text_matches_at, views_of};

verus! {

/// The shared stem of every unit file this manager owns.
pub open spec fn unit_identifier() -> Seq<char> {
    "atg-actuator"@
}

/// The stem with its separating underscore: what precedes the profile or
/// prefix part of a unit name, and what precedes the service reference
/// inside a timer's text.
pub open spec fn unit_discrim() -> Seq<char> {
    "atg-actuator_"@
}

pub open spec fn spec_starts_with(s: Seq<char>, p: Seq<char>) -> bool {
    p.len() <= s.len() && s.take(p.len() as int) == p
}

pub open spec fn spec_ends_with(s: Seq<char>, p: Seq<char>) -> bool {
    p.len() <= s.len() && s.skip(s.len() - p.len()) == p
}

pub open spec fn spec_contains_text(s: Seq<char>, p: Seq<char>) -> bool {
    find_sub(s, p) is Some
}

/// The name of the timer unit for a caller-chosen prefix.
pub open spec fn spec_timer_unit_name(prefix: Seq<char>) -> Seq<char> {
    unit_discrim() + prefix + ".timer"@
}

/// The name of the service unit for a profile.
pub open spec fn spec_service_unit_name(prof: Seq<char>) -> Seq<char> {
    unit_discrim() + prof + ".service"@
}

/// The generated timer text: accuracy, the calendar expression, the
/// wake-from-suspend flag, and the reference to the paired service.
pub open spec fn spec_timer_content(prof: Seq<char>, time: Seq<char>) -> Seq<char> {
    "[Timer]\nAccuracySec=1s\nOnCalendar="@ + time + "\nWakeSystem=true\nUnit=atg-actuator_"@
        + prof
        + ".service\n[Unit]\nDescription=Times actuations via systemd for gpio pins for the switch program.\n[Install]\nWantedBy=timers.target"@
}

/// The generated service text: the execution line re-invokes the actuation
/// executor with the profile id and the duration, both embedded at
/// generation time.
pub open spec fn spec_service_content(prof: Seq<char>, time_on: Seq<char>) -> Seq<char> {
    "[Service]\nExecStart=+/usr/local/bin/switch --exec "@ + prof + " "@ + time_on
        + "\n[Unit]\nDescription=actuates gpio pins for the switch program"@
}

pub fn timer_unit_name(prefix: &str) -> (r: String)
    ensures
        r@ == spec_timer_unit_name(prefix@),
{
    let mut s = "atg-actuator_".to_owned();
    s.append(prefix);
    s.append(".timer");
    s
}

pub fn service_unit_name(prof: &str) -> (r: String)
    ensures
        r@ == spec_service_unit_name(prof@),
{
    let mut s = "atg-actuator_".to_owned();
    s.append(prof);
    s.append(".service");
    s
}

pub fn timer_unit_content(prof: &str, time: &str) -> (r: String)
    ensures
        r@ == spec_timer_content(prof@, time@),
{
    let mut s = "[Timer]\nAccuracySec=1s\nOnCalendar=".to_owned();
    s.append(time);
    s.append("\nWakeSystem=true\nUnit=atg-actuator_");
    s.append(prof);
    s.append(
        ".service\n[Unit]\nDescription=Times actuations via systemd for gpio pins for the switch program.\n[Install]\nWantedBy=timers.target",
    );
    s
}

pub fn service_unit_content(prof: &str, time_on: &str) -> (r: String)
    ensures
        r@ == spec_service_content(prof@, time_on@),
{
    let mut s = "[Service]\nExecStart=+/usr/local/bin/switch --exec ".to_owned();
    s.append(prof);
    s.append(" ");
    s.append(time_on);
    s.append("\n[Unit]\nDescription=actuates gpio pins for the switch program");
    s
}

/// Whether the external calendar validator reported failure on either of
/// its output streams.
pub open spec fn spec_calendar_rejected(out: Seq<char>, err: Seq<char>) -> bool {
    spec_contains_text(out, "Failed"@) || spec_contains_text(err, "Failed"@)
}

/// Inspect the calendar validator's buffered output streams.
pub fn calendar_rejected(out: &str, err: &str) -> (r: bool)
    ensures
        r == spec_calendar_rejected(out@, err@),
{
    if find_in_text(out, "Failed").is_some() {
        return true;
    }
    find_in_text(err, "Failed").is_some()
}

/// The write plan one entry creation calls for: the timer is always
/// rewritten; the service is written only when absent or stale.
pub struct SysdEntry {
    pub timer_name: String,
    pub timer_content: String,
    pub service_name: String,
    pub service_content: String,
    pub write_service: bool,
}

pub open spec fn entry_opt_view(existing: Option<&String>) -> Option<Seq<char>> {
    match existing {
        None => None,
        Some(c) => Some(c@),
    }
}

/// Plan one timer-plus-service entry.
///
/// `out` and `err` are the buffered streams of the external calendar
/// validator run on `time`; a reported failure rejects the entry before
/// anything is planned, so no unit file is ever written for an invalid
/// expression. `existing_service` is the current text of the service unit
/// file, if that file exists; the service is rewritten only when it is
/// absent or its text differs from the newly generated text, which makes
/// repeated identical entries leave it untouched.
pub fn sysd_entry(
    prof: &str,
    time_on: &str,
    sysd_file_prefix: &str,
    time: &str,
    out: &str,
    err: &str,
    existing_service: Option<&String>,
) -> (r: Result<SysdEntry, InvalidArgError>)
    ensures
        r is Ok <==> !spec_calendar_rejected(out@, err@),
        r matches Ok(p) ==> p.timer_name@ == spec_timer_unit_name(sysd_file_prefix@)
            && p.timer_content@ == spec_timer_content(prof@, time@) && p.service_name@
            == spec_service_unit_name(prof@) && p.service_content@ == spec_service_content(
            prof@,
            time_on@,
        ) && p.write_service == (match entry_opt_view(existing_service) {
            None => true,
            Some(c) => c != spec_service_content(prof@, time_on@),
        }),
{
    if calendar_rejected(out, err) {
        return Err(InvalidArgError::new());
    }
    let service_content = service_unit_content(prof, time_on);
    let write_service = match existing_service {
        None => true,
        Some(c) => !c.eq(&service_content),
    };
    Ok(
        SysdEntry {
            timer_name: timer_unit_name(sysd_file_prefix),
            timer_content: timer_unit_content(prof, time),
            service_name: service_unit_name(prof),
            service_content,
            write_service,
        },
    )
}

/// A directory entry that counts as a live timer: its name starts with the
/// shared identifier and carries the timer suffix.
pub open spec fn spec_is_timer_name(n: Seq<char>) -> bool {
    spec_starts_with(n, unit_identifier()) && spec_ends_with(n, ".timer"@)
}

/// A directory entry that counts as a service unit: its name holds the
/// shared identifier and carries the service suffix.
pub open spec fn spec_is_service_name(n: Seq<char>) -> bool {
    spec_contains_text(n, unit_identifier()) && spec_ends_with(n, ".service"@)
}

pub fn is_timer_file_name(name: &str) -> (r: bool)
    ensures
        r == spec_is_timer_name(name@),
{
    let n = name.unicode_len();
    let idl = "atg-actuator".unicode_len();
    let tl = ".timer".unicode_len();
    if n < idl {
        return false;
    }
    if n < tl {
        proof {
            assert(!spec_ends_with(name@, ".timer"@));
        }
        return false;
    }
    let head = text_matches_at(name, 0, "atg-actuator");
    let tail = text_matches_at(name, n - tl, ".timer");
    proof {
        assert(name@.subrange(0, idl as int) =~= name@.take(idl as int));
        assert(name@.subrange(n - tl, n as int) =~= name@.skip(n - tl));
    }
    head && tail
}

pub fn is_service_file_name(name: &str) -> (r: bool)
    ensures
        r == spec_is_service_name(name@),
{
    let n = name.unicode_len();
    let sl = ".service".unicode_len();
    if n < sl {
        proof {
            assert(!spec_ends_with(name@, ".service"@));
        }
        return false;
    }
    let tail = text_matches_at(name, n - sl, ".service");
    proof {
        assert(name@.subrange(n - sl, n as int) =~= name@.skip(n - sl));
    }
    if !tail {
        return false;
    }
    find_in_text(name, "atg-actuator").is_some()
}

/// The profile id a unit name or a timer's text points at: the characters
/// between the identifier-and-underscore stem and the next point, or the
/// whole remainder when no point follows. Nothing when the stem does not
/// occur.
pub open spec fn spec_extract_profile(s: Seq<char>) -> Option<Seq<char>> {
    match find_sub(s, unit_discrim()) {
        None => None,
        Some(i) => {
            let rest = s.skip(i + unit_discrim().len());
            match find_sub(rest, "."@) {
                None => Some(rest),
                Some(j) => Some(rest.take(j)),
            }
        },
    }
}

/// Extract the profile id a unit name or a timer's text points at.
pub fn extract_profile(s: &str) -> (r: Option<String>)
    ensures
        match r {
            Some(p) => spec_extract_profile(s@) == Some(p@),
            None => spec_extract_profile(s@) is None,
        },
{
    let i = match find_in_text(s, "atg-actuator_") {
        Some(i) => i,
        None => {
            return None;
        },
    };
    proof {
        crate::text::lemma_find_sub_correct(s@, "atg-actuator_"@);
    }
    let n = s.unicode_len();
    let dlen = "atg-actuator_".unicode_len();
    let rest = s.substring_char(i + dlen, n);
    proof {
        assert(rest@ =~= s@.skip(i + dlen));
    }
    match find_in_text(rest, ".") {
        None => Some(rest.to_owned()),
        Some(j) => {
            proof {
                crate::text::lemma_find_sub_correct(rest@, "."@);
            }
            let head = rest.substring_char(0, j);
            proof {
                assert(head@ =~= rest@.take(j as int));
            }
            Some(head.to_owned())
        },
    }
}

/// The profile ids still referenced by at least one live timer's text.
pub open spec fn timer_profiles(timer_contents: Seq<Seq<char>>) -> Set<Seq<char>> {
    Set::new(
        |p: Seq<char>|
            exists|i: int|
                0 <= i < timer_contents.len() && spec_extract_profile(#[trigger] timer_contents[i])
                    == Some(p),
    )
}

/// Whether some element of `v` reads as `s`.
fn contains_string(v: &Vec<String>, s: &String) -> (r: bool)
    ensures
        r == exists|i: int| 0 <= i < v@.len() && (#[trigger] v@[i])@ == s@,
{
    let mut i: usize = 0;
    while i < v.len()
        invariant
            0 <= i <= v@.len(),
            forall|j: int| 0 <= j < i ==> (#[trigger] v@[j])@ != s@,
        decreases v@.len() - i,
    {
        if v[i].eq(s) {
            return true;
        }
        i = i + 1;
    }
    false
}

proof fn lemma_filter_push(s: Seq<Seq<char>>, x: Seq<char>, pred: spec_fn(Seq<char>) -> bool)
    ensures
        s.push(x).filter(pred) == if pred(x) {
            s.filter(pred).push(x)
        } else {
            s.filter(pred)
        },
{
    reveal(Seq::filter);
    let p = s.push(x);
    assert(p.len() > 0);
    assert(p.drop_last() =~~= s);
    assert(p.last() == x);
}

/// The first reconciliation pass: the profile ids the live timers'
/// texts reference, one per timer.
fn live_profiles(timer_contents: &Vec<String>) -> (r: Vec<String>)
    requires
        forall|i: int|
            0 <= i < timer_contents@.len() ==> spec_extract_profile(
                (#[trigger] timer_contents@[i])@,
            ) is Some,
    ensures
        forall|p: Seq<char>|
            timer_profiles(views_of(timer_contents@)).contains(p) <==> exists|j: int|
                0 <= j < r@.len() && (#[trigger] r@[j])@ == p,
{
    let mut live: Vec<String> = Vec::new();
    let mut i: usize = 0;
    while i < timer_contents.len()
        invariant
            0 <= i <= timer_contents@.len(),
            live@.len() == i,
            forall|k: int|
                0 <= k < timer_contents@.len() ==> spec_extract_profile(
                    (#[trigger] timer_contents@[k])@,
                ) is Some,
            forall|k: int|
                0 <= k < i ==> (#[trigger] live@[k])@ == spec_extract_profile(
                    timer_contents@[k]@,
                )->0,
        decreases timer_contents@.len() - i,
    {
        let p = match extract_profile(timer_contents[i].as_str()) {
            Some(p) => p,
            None => {
                proof {
                    assert(false);
                }
                String::new()
            },
        };
        live.push(p);
        i = i + 1;
    }
    proof {
        assert forall|p: Seq<char>|
            timer_profiles(views_of(timer_contents@)).contains(p) <==> exists|j: int|
                0 <= j < live@.len() && (#[trigger] live@[j])@ == p by {
            if timer_profiles(views_of(timer_contents@)).contains(p) {
                let k = choose|k: int|
                    0 <= k < views_of(timer_contents@).len() && spec_extract_profile(
                        #[trigger] views_of(timer_contents@)[k],
                    ) == Some(p);
                assert(views_of(timer_contents@)[k] == timer_contents@[k]@);
                assert((live@[k])@ == p);
            }
            if exists|j: int| 0 <= j < live@.len() && (#[trigger] live@[j])@ == p {
                let j = choose|j: int| 0 <= j < live@.len() && (#[trigger] live@[j])@ == p;
                assert(spec_extract_profile(timer_contents@[j]@) == Some(p));
                assert(views_of(timer_contents@)[j] == timer_contents@[j]@);
                assert(spec_extract_profile(views_of(timer_contents@)[j]) == Some(p));
                assert(timer_profiles(views_of(timer_contents@)).contains(p));
            }
        }
    }
    live
}

/// A service-named entry whose own profile id no live timer references.
pub open spec fn spec_orphan_service(n: Seq<char>, timer_contents: Seq<Seq<char>>) -> bool {
    spec_is_service_name(n) && !timer_profiles(timer_contents).contains(spec_extract_profile(n)->0)
}

/// A service-named entry whose profile id is absent from the gathered list.
spec fn orphan_by_list(n: Seq<char>, lv: Seq<Seq<char>>) -> bool {
    spec_is_service_name(n) && !(exists|x: int| 0 <= x < lv.len() && lv[x]
        == spec_extract_profile(n)->0)
}

proof fn lemma_filter_equiv(
    s: Seq<Seq<char>>,
    p1: spec_fn(Seq<char>) -> bool,
    p2: spec_fn(Seq<char>) -> bool,
)
    requires
        forall|n: Seq<char>| #[trigger] p1(n) == p2(n),
    ensures
        s.filter(p1) == s.filter(p2),
    decreases s.len(),
{
    reveal(Seq::filter);
    if s.len() > 0 {
        lemma_filter_equiv(s.drop_last(), p1, p2);
        assert(p1(s.last()) == p2(s.last()));
    }
}

/// Which service files the two-pass reconciliation deletes.
///
/// The first pass reads every live timer's text and gathers the distinct
/// profile ids they reference; the second keeps exactly the service-named
/// entries whose own profile id none of those timers references. Entries
/// the second pass keeps, and everything that is not a service name, are
/// left untouched. Both passes ask that the extraction find the stem, as it
/// does in every text and name this manager writes.
pub fn sysd_cleanup_unused_service(timer_contents: &Vec<String>, file_names: &Vec<String>) -> (r:
    Vec<String>)
    requires
        forall|i: int|
            0 <= i < timer_contents@.len() ==> spec_extract_profile(
                (#[trigger] timer_contents@[i])@,
            ) is Some,
        forall|i: int|
            0 <= i < file_names@.len() ==> spec_is_service_name((#[trigger] file_names@[i])@)
                ==> spec_extract_profile(file_names@[i]@) is Some,
    ensures
        views_of(r@) == views_of(file_names@).filter(
            |n: Seq<char>| spec_orphan_service(n, views_of(timer_contents@)),
        ),
{
    let live = live_profiles(timer_contents);
    let ghost lv = views_of(live@);
    let mut doomed: Vec<String> = Vec::new();
    let mut j: usize = 0;
    proof {
        reveal(Seq::filter);
        assert(views_of(file_names@).take(0) =~~= Seq::<Seq<char>>::empty());
        assert(Seq::<Seq<char>>::empty().filter(|n: Seq<char>| orphan_by_list(n, lv)) =~~= views_of(
            doomed@,
        ));
    }
    while j < file_names.len()
        invariant
            0 <= j <= file_names@.len(),
            forall|k: int|
                0 <= k < file_names@.len() ==> spec_is_service_name((#[trigger] file_names@[k])@)
                    ==> spec_extract_profile(file_names@[k]@) is Some,
            lv == views_of(live@),
            views_of(doomed@) == views_of(file_names@).take(j as int).filter(
                |n: Seq<char>| orphan_by_list(n, lv),
            ),
        decreases file_names@.len() - j,
    {
        let ghost pred = |n: Seq<char>| orphan_by_list(n, lv);
        let name = &file_names[j];
        let ghost nv = name@;
        let mut delete = false;
        if is_service_file_name(name.as_str()) {
            let p = match extract_profile(name.as_str()) {
                Some(p) => p,
                None => {
                    proof {
                        assert(false);
                    }
                    String::new()
                },
            };
            if !contains_string(&live, &p) {
                delete = true;
            }
            proof {
                assert forall|x: int| 0 <= x < lv.len() implies lv[x] == (#[trigger] live@[x])@ by {}
                assert(delete == pred(nv));
            }
        } else {
            proof {
                assert(!pred(nv));
            }
        }
        let ghost old_doomed = doomed@;
        if delete {
            doomed.push(name.clone());
        }
        proof {
            lemma_filter_push(views_of(file_names@).take(j as int), nv, pred);
            assert(views_of(file_names@).take(j + 1) =~~= views_of(file_names@).take(
                j as int,
            ).push(nv));
            if delete {
                assert(views_of(doomed@) =~~= views_of(old_doomed).push(nv));
            } else {
                assert(views_of(doomed@) =~~= views_of(old_doomed));
            }
        }
        j = j + 1;
    }
    proof {
        assert(views_of(file_names@).take(file_names@.len() as int) =~~= views_of(file_names@));
        assert forall|n: Seq<char>| #[trigger] orphan_by_list(n, lv) == spec_orphan_service(
            n,
            views_of(timer_contents@),
        ) by {
            if spec_is_service_name(n) {
                let q = spec_extract_profile(n)->0;
                assert(timer_profiles(views_of(timer_contents@)).contains(q) <==> exists|x: int|
                    0 <= x < live@.len() && (#[trigger] live@[x])@ == q);
                assert forall|x: int| 0 <= x < lv.len() implies lv[x] == (#[trigger] live@[x])@ by {}
                if exists|x: int| 0 <= x < live@.len() && (#[trigger] live@[x])@ == q {
                    let x = choose|x: int| 0 <= x < live@.len() && (#[trigger] live@[x])@ == q;
                    assert(lv[x] == q);
                }
                if exists|x: int| 0 <= x < lv.len() && lv[x] == q {
                    let x = choose|x: int| 0 <= x < lv.len() && lv[x] == q;
                    assert(live@[x]@ == q);
                }
            }
        }
        lemma_filter_equiv(
            views_of(file_names@),
            |n: Seq<char>| orphan_by_list(n, lv),
            |n: Seq<char>| spec_orphan_service(n, views_of(timer_contents@)),
        );
    }
    doomed
}

} // verus!
