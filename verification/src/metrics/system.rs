//! Host-level odds and ends: load averages, uptime and the machine's
//! addresses.

use super::cpu::{number_at, word_number};
use crate::num::read::read_number;
use crate::num::value::lemma_truncated_value;
use crate::num::Num;
use crate::scan::{split_words, trim, trimmed, words};
use vstd::prelude::*;

verus! {

pub struct System {
    pub load1: Num,
    pub load5: Num,
    pub load15: Num,
    pub uptime_secs: u64,
    /// Primary outbound IPv4; empty if undeterminable.
    pub local_ip: String,
    /// Internet-facing address; empty until it is known.
    pub ext_ip: String,
}

impl System {
    /// A host at a local address, with nothing sampled yet.
    pub fn new(local_ip: String) -> (r: System)
        ensures
            r.load1 == Num::spec_zero(),
            r.load5 == Num::spec_zero(),
            r.load15 == Num::spec_zero(),
            r.uptime_secs == 0,
            r.local_ip == local_ip,
            r.ext_ip@.len() == 0,
    {
        System {
            load1: Num::zero(),
            load5: Num::zero(),
            load15: Num::zero(),
            uptime_secs: 0,
            local_ip,
            ext_ip: String::new(),
        }
    }

    /// This is what stood before with fresh load averages and uptime.
    pub open spec fn took_in(&self, before: System, loadavg: Option<Seq<char>>, uptime: Option<Seq<char>>) -> bool {
        &&& self.local_ip == before.local_ip
        &&& self.ext_ip == before.ext_ip
        &&& match loadavg {
            Some(t) => {
                &&& self.load1 == word_number(words(t), 0)
                &&& self.load5 == word_number(words(t), 1)
                &&& self.load15 == word_number(words(t), 2)
                &&& self.uptime_secs == match uptime {
                    Some(u) => word_number(words(u), 0).truncated(u64::MAX as nat),
                    None => before.uptime_secs as nat,
                }
            },
            None => *self == before,
        }
    }

    /// Refreshes the load averages and the uptime from the texts of
    /// `/proc/loadavg` and `/proc/uptime`. Without the first nothing changes;
    /// without the second the uptime stays.
    pub fn update(&mut self, loadavg: Option<&str>, uptime: Option<&str>)
        ensures
            final(self).took_in(
                *old(self),
                match loadavg {
                    Some(t) => Some(t@),
                    None => None,
                },
                match uptime {
                    Some(u) => Some(u@),
                    None => None,
                },
            ),
    {
        if let Some(t) = loadavg {
            let w: Vec<String> = split_words(t);
            self.load1 = number_at(&w, 0);
            self.load5 = number_at(&w, 1);
            self.load15 = number_at(&w, 2);
            if let Some(u) = uptime {
                let up: Vec<String> = split_words(u);
                self.uptime_secs = number_at(&up, 0).to_u64();
            }
        }
    }

    /// Takes over load averages and uptime sampled elsewhere.
    pub fn set_load(&mut self, one: Num, five: Num, fifteen: Num, uptime_secs: u64)
        ensures
            *final(self) == (System { load1: one, load5: five, load15: fifteen, uptime_secs, ..*old(self) }),
    {
        self.load1 = one;
        self.load5 = five;
        self.load15 = fifteen;
        self.uptime_secs = uptime_secs;
    }

    /// Takes over what an echo service answered with, spaces around it apart,
    /// where that is an address.
    pub fn set_external_ip(&mut self, answer: &str, is_address: bool)
        ensures
            final(self).ext_ip@ == if is_address {
                trimmed(answer@)
            } else {
                old(self).ext_ip@
            },
            final(self).load1 == old(self).load1,
            final(self).load5 == old(self).load5,
            final(self).load15 == old(self).load15,
            final(self).uptime_secs == old(self).uptime_secs,
            final(self).local_ip == old(self).local_ip,
    {
        if is_address {
            self.ext_ip = trim(answer);
        }
    }

    /// The internet-facing address, or nothing while it is not known.
    pub fn external_ip(&self) -> (r: String)
        ensures
            r@ == self.ext_ip@,
    {
        self.ext_ip.clone()
    }
}

/// The load averages are the first three numbers of their text, over one, five
/// and fifteen minutes in turn, and the uptime is the first number of its own,
/// cut to whole seconds.
pub proof fn lemma_load_in_turn(before: System, after: System, loadavg: Seq<char>, uptime: Seq<char>, loads: Seq<Num>, up: Num)
    requires
        after.took_in(before, Some(loadavg), Some(uptime)),
        loads.len() == 3,
        words(loadavg).len() >= 3,
        forall|i: int| 0 <= i < 3 ==> read_number(#[trigger] words(loadavg)[i]) == Some(loads[i]),
        words(uptime).len() >= 1,
        read_number(words(uptime)[0]) == Some(up),
        up.finite(),
        !up.negative(),
        up.value() < 0x7fff_ffff_ffff_ffff as real,
    ensures
        after.load1 == loads[0],
        after.load5 == loads[1],
        after.load15 == loads[2],
        after.uptime_secs as real <= up.value(),
        up.value() < after.uptime_secs as real + 1 as real,
        after.local_ip == before.local_ip,
        after.ext_ip == before.ext_ip,
{
    assert(read_number(words(loadavg)[0]) == Some(loads[0]));
    assert(read_number(words(loadavg)[1]) == Some(loads[1]));
    assert(read_number(words(loadavg)[2]) == Some(loads[2]));
    lemma_truncated_value(up);
}

} // verus!
