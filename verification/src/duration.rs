//! Elapsed-time formatting: a whole second count becomes an English
//! phrase of days, hours, minutes and seconds.

use vstd::prelude::*;
use crate::text::{dec_str_of, u64_to_string};

verus! {

/// The phrase for one unit: nothing when the count is zero, otherwise the
/// count followed by the singular or plural unit word.
pub open spec fn unit_phrase(n: u64, singular: Seq<char>, plural: Seq<char>) -> Seq<char> {
    if n == 0 {
        Seq::<char>::empty()
    } else if n == 1 {
        dec_str_of(n as int) + singular
    } else {
        dec_str_of(n as int) + plural
    }
}

/// The full phrase for `t` elapsed seconds: days, hours, minutes, then
/// seconds, each omitted when zero — except that the seconds component is
/// kept when every other unit is absent, so zero formats as "0 seconds".
/// The day, hour and minute words carry a trailing space; the second word
/// does not.
pub open spec fn duration_phrase(t: u64) -> Seq<char> {
    let days = t / 86400;
    let hours = (t % 86400) / 3600;
    let minutes = (t % 3600) / 60;
    let secs = t % 60;
    unit_phrase(days, " day "@, " days "@) + unit_phrase(hours, " hour "@, " hours "@)
        + unit_phrase(minutes, " minute "@, " minutes "@) + (if secs > 0 || (days == 0 && hours
        == 0 && minutes == 0) {
        dec_str_of(secs as int) + (if secs == 1 {
            " second"@
        } else {
            " seconds"@
        })
    } else {
        Seq::<char>::empty()
    })
}

/// Formats an elapsed second count as an English phrase, largest unit
/// first; a pure function of its argument.
pub fn time_to_english(time: u64) -> (r: String)
    ensures
        r@ == duration_phrase(time),
{
    let days = time / 86400;
    let hours = (time % 86400) / 3600;
    let minutes = (time % 3600) / 60;
    let secs = time % 60;
    let ghost d_part = unit_phrase(days, " day "@, " days "@);
    let ghost h_part = unit_phrase(hours, " hour "@, " hours "@);
    let ghost m_part = unit_phrase(minutes, " minute "@, " minutes "@);
    let mut output = String::new();
    if days > 0 {
        let n = u64_to_string(days);
        output.append(n.as_str());
        output.append(if days == 1 {
            " day "
        } else {
            " days "
        });
    }
    proof {
        assert(output@ =~= d_part);
    }
    if hours > 0 {
        let n = u64_to_string(hours);
        output.append(n.as_str());
        output.append(if hours == 1 {
            " hour "
        } else {
            " hours "
        });
    }
    proof {
        assert(output@ =~= d_part + h_part);
    }
    if minutes > 0 {
        let n = u64_to_string(minutes);
        output.append(n.as_str());
        output.append(if minutes == 1 {
            " minute "
        } else {
            " minutes "
        });
    }
    proof {
        assert(output@ =~= d_part + h_part + m_part);
    }
    if secs > 0 || (days == 0 && hours == 0 && minutes == 0) {
        let n = u64_to_string(secs);
        output.append(n.as_str());
        output.append(if secs == 1 {
            " second"
        } else {
            " seconds"
        });
        proof {
            assert(output@ =~= d_part + h_part + m_part + (dec_str_of(secs as int) + (if secs
                == 1 {
                " second"@
            } else {
                " seconds"@
            })));
        }
    } else {
        proof {
            assert(output@ =~= d_part + h_part + m_part + Seq::<char>::empty());
        }
    }
    proof {
        assert(output@ == duration_phrase(time));
    }
    output
}

} // verus!
