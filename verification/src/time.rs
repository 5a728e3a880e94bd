//! The clock reading a frame's creation is stamped with, and the rendering
//! of the elapsed time shown beside each frame in a dump.

use vstd::prelude::*;

use crate::text::{append_u64, spec_digit, spec_nat_digits};

verus! {

/// Relies on coarsetime::Instant::now: a reading of the process-wide coarse
/// monotonic clock, converted to whole nanoseconds. The value depends on the
/// clock, so nothing is promised of it.
#[verifier::external_body]
pub fn now_nanos() -> u64 {
    coarsetime::Duration::from_ticks(coarsetime::Instant::now().as_ticks()).as_nanos()
}

/// The time elapsed between a frame's creation and a later clock reading,
/// zero when the clock reads earlier than the creation.
pub open spec fn spec_elapsed(start: u64, now: u64) -> nat {
    if now >= start {
        (now - start) as nat
    } else {
        0
    }
}

/// Computes the elapsed time between two clock readings.
pub fn elapsed_ns(start: u64, now: u64) -> (e: u64)
    ensures
        e as nat == spec_elapsed(start, now),
{
    if now >= start {
        now - start
    } else {
        0
    }
}

/// A value below one thousand, padded to exactly three digits.
pub open spec fn spec_pad3(n: nat) -> Seq<char> {
    seq![
        spec_digit(((n / 100) % 10) as int),
        spec_digit(((n / 10) % 10) as int),
        spec_digit((n % 10) as int),
    ]
}

/// The rendering of an elapsed duration in nanoseconds: the largest fitting
/// unit among ns, µs, ms and s, with a three-digit fraction of the next
/// smaller unit for everything above the nanosecond range.
pub open spec fn spec_render_duration(n: nat) -> Seq<char> {
    if n < 1000 {
        spec_nat_digits(n) + "ns"@
    } else if n < 1000000 {
        spec_nat_digits(n / 1000) + seq!['.'] + spec_pad3(n % 1000) + "µs"@
    } else if n < 1000000000 {
        spec_nat_digits(n / 1000000) + seq!['.'] + spec_pad3((n / 1000) % 1000) + "ms"@
    } else {
        spec_nat_digits(n / 1000000000) + seq!['.'] + spec_pad3((n / 1000000) % 1000) + "s"@
    }
}

fn append_pad3(out: &mut String, n: u64)
    requires
        n < 1000,
    ensures
        final(out)@ == old(out)@ + spec_pad3(n as nat),
{
    let hundreds = n / 100;
    let tens = (n / 10) % 10;
    let ones = n % 10;
    append_u64(out, hundreds);
    append_u64(out, tens);
    append_u64(out, ones);
    proof {
        assert(spec_nat_digits((hundreds as nat)) =~= seq![spec_digit(((n as nat / 100) % 10) as int)]);
        assert(spec_nat_digits((tens as nat)) =~= seq![spec_digit(((n as nat / 10) % 10) as int)]);
        assert(spec_nat_digits((ones as nat)) =~= seq![spec_digit((n as nat % 10) as int)]);
        assert(final(out)@ =~= old(out)@ + spec_pad3(n as nat));
    }
}

/// Appends the rendering of an elapsed duration in nanoseconds.
pub fn append_duration(out: &mut String, n: u64)
    ensures
        final(out)@ == old(out)@ + spec_render_duration(n as nat),
{
    proof {
        reveal_strlit("ns");
        reveal_strlit("µs");
        reveal_strlit("ms");
        reveal_strlit("s");
        reveal_strlit(".");
    }
    if n < 1000 {
        append_u64(out, n);
        out.append("ns");
    } else if n < 1000000 {
        append_u64(out, n / 1000);
        out.append(".");
        append_pad3(out, n % 1000);
        out.append("µs");
    } else if n < 1000000000 {
        append_u64(out, n / 1000000);
        out.append(".");
        append_pad3(out, (n / 1000) % 1000);
        out.append("ms");
    } else {
        append_u64(out, n / 1000000000);
        out.append(".");
        append_pad3(out, (n / 1000000) % 1000);
        out.append("s");
    }
    proof {
        assert("."@ =~= seq!['.']);
        assert(final(out)@ =~= old(out)@ + spec_render_duration(n as nat));
    }
}

} // verus!
