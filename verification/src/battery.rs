//! Battery state from `/sys/class/power_supply/BAT*/`.
use vstd::prelude::*;

use crate::text::{
    chars_of, eq_str, has_prefix, parse_u32, parse_u32_of, starts_with_str, string_of, string_views,
    trim, trimmed,
};

verus! {

#[derive(Debug, Clone, Copy)]
pub struct BatteryStats {
    pub has_battery: bool,
    pub percent: u32,
    pub is_charging: bool,
}

/// The first name in `names` that starts with `BAT`.
pub open spec fn first_bat(names: Seq<Seq<char>>) -> Option<Seq<char>>
    decreases names.len(),
{
    if names.len() == 0 {
        None
    } else if has_prefix(names[0], "BAT"@) {
        Some(names[0])
    } else {
        first_bat(names.drop_first())
    }
}

/// The battery directory chosen among the directories of the power supply
/// root, listed in `names`: `BAT0`, else `BAT1`, else the first whose name
/// starts with `BAT`.
pub open spec fn battery_choice(names: Seq<Seq<char>>) -> Option<Seq<char>> {
    if names.contains("BAT0"@) {
        Some("BAT0"@)
    } else if names.contains("BAT1"@) {
        Some("BAT1"@)
    } else {
        first_bat(names)
    }
}

fn contains_name(names: &Vec<String>, name: &str) -> (r: bool)
    ensures
        r == string_views(names@).contains(name@),
{
    let mut i: usize = 0;
    while i < names.len()
        invariant
            i <= names@.len(),
            forall|j: int| 0 <= j < i ==> names@[j]@ != name@,
        decreases names@.len() - i,
    {
        if eq_str(&chars_of(names[i].as_str()), name) {
            assert(string_views(names@)[i as int] == name@);
            return true;
        }
        i = i + 1;
    }
    proof {
        if string_views(names@).contains(name@) {
            let k = choose|k: int| 0 <= k < string_views(names@).len() && string_views(names@)[k] == name@;
            assert(names@[k]@ == name@);
        }
    }
    false
}

/// Find the battery directory among the directory names of the power
/// supply root (normally `/sys/class/power_supply`), listed in the order the
/// directory is read.
pub fn find_battery(names: &Vec<String>) -> (r: Option<String>)
    ensures
        (match r {
            Some(s) => Some(s@),
            None => None,
        }) == battery_choice(string_views(names@)),
{
    if contains_name(names, "BAT0") {
        return Some(string_of(&chars_of("BAT0")));
    }
    if contains_name(names, "BAT1") {
        return Some(string_of(&chars_of("BAT1")));
    }
    let ghost all = string_views(names@);
    let mut i: usize = 0;
    assert(all.skip(0) =~= all);
    while i < names.len()
        invariant
            i <= names@.len(),
            all == string_views(names@),
            !all.contains("BAT0"@),
            !all.contains("BAT1"@),
            first_bat(all) == first_bat(all.skip(i as int)),
        decreases names@.len() - i,
    {
        let name = chars_of(names[i].as_str());
        assert(all.skip(i as int)[0] == name@);
        if starts_with_str(&name, "BAT") {
            return Some(string_of(&name));
        }
        assert(all.skip(i as int).drop_first() =~= all.skip(i + 1));
        i = i + 1;
    }
    None
}

/// The percentage in a `capacity` file: its trimmed text as a `u32`, 0
/// where the file is unreadable or the text is not a number.
pub open spec fn capacity_percent(capacity: Option<Seq<char>>) -> u32 {
    match capacity {
        Some(c) => match parse_u32(trim(c)) {
            Some(p) => p,
            None => 0,
        },
        None => 0,
    }
}

/// Whether a `status` file says the battery is charging or full.
pub open spec fn charging_status(status: Option<Seq<char>>) -> bool {
    match status {
        Some(s) => trim(s) == "Charging"@ || trim(s) == "Full"@,
        None => false,
    }
}

pub open spec fn str_view(s: Option<&str>) -> Option<Seq<char>> {
    match s {
        Some(t) => Some(t@),
        None => None,
    }
}

/// The battery stats from the contents of the battery's `capacity` and
/// `status` files (`None` where unreadable), or all zero where no battery
/// was found.
pub fn battery_stats(found: bool, capacity: Option<&str>, status: Option<&str>) -> (r: BatteryStats)
    ensures
        r.has_battery == found,
        r.percent == (if found {
            capacity_percent(str_view(capacity))
        } else {
            0
        }),
        r.is_charging == (found && charging_status(str_view(status))),
        r.percent == (if found && capacity is Some && parse_u32(trim(capacity->0@)) is Some {
            parse_u32(trim(capacity->0@))->0
        } else {
            0
        }),
        r.is_charging ==> found && (status matches Some(s) && (trim(s@) == "Charging"@ || trim(s@)
            == "Full"@)),
        found && (status matches Some(s) && (trim(s@) == "Charging"@ || trim(s@) == "Full"@))
            ==> r.is_charging,
{
    if !found {
        return BatteryStats { has_battery: false, percent: 0, is_charging: false };
    }
    let percent = match capacity {
        Some(c) => match parse_u32_of(&trimmed(&chars_of(c))) {
            Some(p) => p,
            None => 0,
        },
        None => 0,
    };
    let is_charging = match status {
        Some(s) => {
            let t = trimmed(&chars_of(s));
            eq_str(&t, "Charging") || eq_str(&t, "Full")
        },
        None => false,
    };
    BatteryStats { has_battery: true, percent, is_charging }
}

/// A battery counts as charging exactly where its trimmed status reads
/// `Charging` or `Full`; every other status (`Discharging`, `Not charging`,
/// `Unknown`, an unreadable file) counts as not charging.
pub proof fn lemma_charging_statuses(status: Option<Seq<char>>)
    ensures
        charging_status(status) <==> (status matches Some(s) && (trim(s) == "Charging"@ || trim(s)
            == "Full"@)),
{
}

proof fn lemma_first_bat(names: Seq<Seq<char>>)
    ensures
        first_bat(names) matches Some(n) ==> names.contains(n) && has_prefix(n, "BAT"@),
        first_bat(names) is None <==> forall|i: int| 0 <= i < names.len() ==> !has_prefix(
            #[trigger] names[i],
            "BAT"@,
        ),
    decreases names.len(),
{
    if names.len() > 0 {
        let d = names.drop_first();
        lemma_first_bat(d);
        if !has_prefix(names[0], "BAT"@) {
            if let Some(n) = first_bat(d) {
                let k = choose|k: int| 0 <= k < d.len() && d[k] == n;
                assert(names[k + 1] == n);
            }
            assert forall|i: int| 0 < i < names.len() implies names[i] == d[i - 1] by {}
            if forall|i: int| 0 <= i < d.len() ==> !has_prefix(#[trigger] d[i], "BAT"@) {
                assert forall|i: int| 0 <= i < names.len() implies !has_prefix(
                    #[trigger] names[i],
                    "BAT"@,
                ) by {
                    if i > 0 {
                        assert(names[i] == d[i - 1]);
                    }
                }
            } else {
                let i = choose|i: int| 0 <= i < d.len() && has_prefix(#[trigger] d[i], "BAT"@);
                assert(names[i + 1] == d[i]);
            }
        } else {
            assert(names.contains(names[0]));
        }
    }
}

/// The battery chosen among the directory names: `BAT0` where it is
/// present, else `BAT1` where present, else one of the names that start
/// with `BAT`, and none exactly where no name starts with `BAT`.
pub proof fn lemma_battery_choice(names: Seq<Seq<char>>)
    ensures
        names.contains("BAT0"@) ==> battery_choice(names) == Some("BAT0"@),
        !names.contains("BAT0"@) && names.contains("BAT1"@) ==> battery_choice(names) == Some(
            "BAT1"@,
        ),
        battery_choice(names) matches Some(n) ==> names.contains(n) && has_prefix(n, "BAT"@),
        battery_choice(names) is None <==> forall|i: int| 0 <= i < names.len() ==> !has_prefix(
            #[trigger] names[i],
            "BAT"@,
        ),
{
    reveal_strlit("BAT0");
    reveal_strlit("BAT1");
    reveal_strlit("BAT");
    assert("BAT0"@.take(3) =~= "BAT"@);
    assert("BAT1"@.take(3) =~= "BAT"@);
    lemma_first_bat(names);
    if names.contains("BAT0"@) || names.contains("BAT1"@) {
        if names.contains("BAT0"@) {
            let k = choose|k: int| 0 <= k < names.len() && names[k] == "BAT0"@;
            assert(has_prefix(names[k], "BAT"@));
        } else {
            let k = choose|k: int| 0 <= k < names.len() && names[k] == "BAT1"@;
            assert(has_prefix(names[k], "BAT"@));
        }
    }
}

} // verus!
