//! Standalone variant of the approximate duration form: the same
//! decomposition as [`crate::duration_format`], exposed through its own
//! display-only type.

use vstd::prelude::*;

use crate::duration::Duration;
use crate::duration_format::format_duration_raw;
use crate::duration_format::spec_format_duration_parts;
use crate::text::char_of_digit;
use crate::text::dec_digits;
use crate::text::push_decimal;
use crate::text::push_digit;
use vstd::string::StringExecFns;

verus! {

/// Approximate duration: unit, integral and fractional parts as fields.
pub struct FormattedDuration {
    /// Duration unit.
    pub unit: &'static str,
    /// Integral part.
    pub integer: u64,
    /// Fractional part. Max. value 9.
    pub fraction: u8,
}

/// The approximate decomposition, stated of this module's
/// [`FormattedDuration`].
pub open spec fn spec_format_duration(secs: u64, nanos: u32, r: FormattedDuration) -> bool {
    spec_format_duration_parts(secs, nanos, r.unit@, r.integer as nat, r.fraction as nat)
}

/// Text of the approximate form: integral part, `.` and the fractional
/// digit where it is nonzero, one space, the unit.
pub open spec fn spec_formatted_duration_text(fd: FormattedDuration) -> Seq<char> {
    dec_digits(fd.integer as nat) + (if fd.fraction == 0 {
        Seq::<char>::empty()
    } else {
        seq!['.', char_of_digit(fd.fraction as nat)]
    }) + seq![' '] + fd.unit@
}

impl FormattedDuration {
    /// A fractional part is a single decimal digit.
    pub open spec fn wf(self) -> bool {
        self.fraction < 10
    }

    /// The display text, e.g. `0 s`, `1.5 ms`, `12.5 h`.
    pub fn display(&self) -> (r: String)
        requires
            self.wf(),
        ensures
            r@ == spec_formatted_duration_text(*self),
    {
        let mut out = String::new();
        push_decimal(&mut out, self.integer as u128);
        if self.fraction != 0 {
            proof {
                reveal_strlit(".");
                assert("."@ =~= seq!['.']);
            }
            out.append(".");
            push_digit(&mut out, self.fraction);
        }
        proof {
            reveal_strlit(" ");
            assert(" "@ =~= seq![' ']);
        }
        out.append(" ");
        out.append(self.unit);
        proof {
            assert(out@ =~= spec_formatted_duration_text(*self));
        }
        out
    }
}

/// This trait adds a [`format_duration`](FormatDuration::format_duration)
/// method to the [`Duration`] type.
pub trait FormatDuration: Sized {
    /// Whole seconds of the duration being formatted.
    spec fn duration_secs(self) -> u64;

    /// Sub-second nanoseconds of the duration being formatted.
    spec fn duration_nanos(self) -> u32;

    /// Splits the original duration into integral, fractional and adds a
    /// unit.
    fn format_duration(self) -> (r: FormattedDuration)
        requires
            self.duration_nanos() < 1_000_000_000,
        ensures
            spec_format_duration(self.duration_secs(), self.duration_nanos(), r),
            r.wf(),
    ;
}

impl FormatDuration for Duration {
    open spec fn duration_secs(self) -> u64 {
        self.secs
    }

    open spec fn duration_nanos(self) -> u32 {
        self.nanos
    }

    fn format_duration(self) -> (r: FormattedDuration) {
        let (unit, integer, fraction) = format_duration_raw(self.secs, self.nanos);
        FormattedDuration { unit, integer, fraction }
    }
}

} // verus!
