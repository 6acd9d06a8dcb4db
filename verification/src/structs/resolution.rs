use vstd::prelude::*;

verus! {

/// Nanoseconds in one minute.
pub const MINUTE_NANOS: i64 = 60_000_000_000;

/// The bucket durations for which candles are kept.
#[derive(Clone, Copy, Debug, PartialEq, Eq, Structural, Hash)]
pub enum Resolution {
    R1m,
    R3m,
    R5m,
    R10m,
    R15m,
    R30m,
    R1h,
    R2h,
    R4h,
    R1d,
}

impl Resolution {
    /// The number of minutes that one bucket spans.
    pub open spec fn minutes(self) -> int {
        match self {
            Resolution::R1m => 1,
            Resolution::R3m => 3,
            Resolution::R5m => 5,
            Resolution::R10m => 10,
            Resolution::R15m => 15,
            Resolution::R30m => 30,
            Resolution::R1h => 60,
            Resolution::R2h => 120,
            Resolution::R4h => 240,
            Resolution::R1d => 1440,
        }
    }

    /// The length of one bucket in nanoseconds.
    pub open spec fn nanos(self) -> int {
        self.minutes() * MINUTE_NANOS
    }

    /// The canonical key under which the resolution is stored.
    pub open spec fn key(self) -> Seq<char> {
        match self {
            Resolution::R1m => seq!['1', 'M'],
            Resolution::R3m => seq!['3', 'M'],
            Resolution::R5m => seq!['5', 'M'],
            Resolution::R10m => seq!['1', '0', 'M'],
            Resolution::R15m => seq!['1', '5', 'M'],
            Resolution::R30m => seq!['3', '0', 'M'],
            Resolution::R1h => seq!['1', 'H'],
            Resolution::R2h => seq!['2', 'H'],
            Resolution::R4h => seq!['4', 'H'],
            Resolution::R1d => seq!['1', 'D'],
        }
    }

    /// The resolution that a key names, if any.
    pub open spec fn of_key(key: Seq<char>) -> Option<Resolution> {
        if key == Resolution::R1m.key() {
            Some(Resolution::R1m)
        } else if key == Resolution::R3m.key() {
            Some(Resolution::R3m)
        } else if key == Resolution::R5m.key() {
            Some(Resolution::R5m)
        } else if key == Resolution::R10m.key() {
            Some(Resolution::R10m)
        } else if key == Resolution::R15m.key() {
            Some(Resolution::R15m)
        } else if key == Resolution::R30m.key() {
            Some(Resolution::R30m)
        } else if key == Resolution::R1h.key() {
            Some(Resolution::R1h)
        } else if key == Resolution::R2h.key() {
            Some(Resolution::R2h)
        } else if key == Resolution::R4h.key() {
            Some(Resolution::R4h)
        } else if key == Resolution::R1d.key() {
            Some(Resolution::R1d)
        } else {
            None
        }
    }

    /// The length of one bucket in nanoseconds.
    pub fn get_duration(&self) -> (d: i64)
        ensures
            d == self.nanos(),
            0 < d <= 1440 * MINUTE_NANOS,
    {
        match self {
            Resolution::R1m => MINUTE_NANOS,
            Resolution::R3m => 3 * MINUTE_NANOS,
            Resolution::R5m => 5 * MINUTE_NANOS,
            Resolution::R10m => 10 * MINUTE_NANOS,
            Resolution::R15m => 15 * MINUTE_NANOS,
            Resolution::R30m => 30 * MINUTE_NANOS,
            Resolution::R1h => 60 * MINUTE_NANOS,
            Resolution::R2h => 120 * MINUTE_NANOS,
            Resolution::R4h => 240 * MINUTE_NANOS,
            Resolution::R1d => 1440 * MINUTE_NANOS,
        }
    }

    /// The resolution that a key names: the inverse of `to_string`.
    pub fn from_key(key: &str) -> (r: Option<Resolution>)
        ensures
            r == Resolution::of_key(key@),
    {
        let given = String::from_str(key);
        let all = [
            Resolution::R1m,
            Resolution::R3m,
            Resolution::R5m,
            Resolution::R10m,
            Resolution::R15m,
            Resolution::R30m,
            Resolution::R1h,
            Resolution::R2h,
            Resolution::R4h,
            Resolution::R1d,
        ];
        let mut i: usize = 0;
        while i < 10
            invariant
                i <= 10,
                given@ == key@,
                all@ == seq![
                    Resolution::R1m,
                    Resolution::R3m,
                    Resolution::R5m,
                    Resolution::R10m,
                    Resolution::R15m,
                    Resolution::R30m,
                    Resolution::R1h,
                    Resolution::R2h,
                    Resolution::R4h,
                    Resolution::R1d,
                ],
                forall|k: int| 0 <= k < i ==> (#[trigger] all@[k]).key() != key@,
            decreases 10 - i,
        {
            let candidate = all[i];
            if candidate.to_string() == given {
                proof {
                    lemma_key_round_trip(candidate);
                }
                return Some(candidate);
            }
            i += 1;
        }
        proof {
            assert(all@[0] == Resolution::R1m && all@[1] == Resolution::R3m && all@[2]
                == Resolution::R5m && all@[3] == Resolution::R10m && all@[4] == Resolution::R15m
                && all@[5] == Resolution::R30m && all@[6] == Resolution::R1h && all@[7]
                == Resolution::R2h && all@[8] == Resolution::R4h && all@[9] == Resolution::R1d);
        }
        None
    }

    /// The canonical key as text.
    pub fn to_string(&self) -> (s: String)
        ensures
            s@ == self.key(),
    {
        proof {
            reveal_strlit("1M");
            reveal_strlit("3M");
            reveal_strlit("5M");
            reveal_strlit("10M");
            reveal_strlit("15M");
            reveal_strlit("30M");
            reveal_strlit("1H");
            reveal_strlit("2H");
            reveal_strlit("4H");
            reveal_strlit("1D");
        }
        let s = match self {
            Resolution::R1m => String::from_str("1M"),
            Resolution::R3m => String::from_str("3M"),
            Resolution::R5m => String::from_str("5M"),
            Resolution::R10m => String::from_str("10M"),
            Resolution::R15m => String::from_str("15M"),
            Resolution::R30m => String::from_str("30M"),
            Resolution::R1h => String::from_str("1H"),
            Resolution::R2h => String::from_str("2H"),
            Resolution::R4h => String::from_str("4H"),
            Resolution::R1d => String::from_str("1D"),
        };
        assert(s@ =~= self.key());
        s
    }
}

/// Every resolution is found again from its key.
pub proof fn lemma_key_round_trip(r: Resolution)
    ensures
        Resolution::of_key(r.key()) == Some(r),
{
    assert(Resolution::R1m.key()[0] == '1' && Resolution::R1m.key()[1] == 'M');
    assert(Resolution::R3m.key()[0] == '3');
    assert(Resolution::R5m.key()[0] == '5');
    assert(Resolution::R10m.key()[1] == '0' && Resolution::R10m.key().len() == 3);
    assert(Resolution::R15m.key()[1] == '5' && Resolution::R15m.key().len() == 3);
    assert(Resolution::R30m.key()[0] == '3' && Resolution::R30m.key().len() == 3);
    assert(Resolution::R1h.key()[0] == '1' && Resolution::R1h.key()[1] == 'H');
    assert(Resolution::R2h.key()[0] == '2');
    assert(Resolution::R4h.key()[0] == '4');
    assert(Resolution::R1d.key()[0] == '1' && Resolution::R1d.key()[1] == 'D');
}

} // verus!
