//! Pretty printing utilities for debugger output: plain formatting of
//! values, storage entries, calls and budgets, and colored status messages.

use vstd::prelude::*;

use colored::Colorize;

use crate::loader::dec_digits;

verus! {

/// No escape character, so terminal styling cannot rewrite the text.
pub open spec fn esc_free(s: Seq<char>) -> bool {
    forall|i: int| 0 <= i < s.len() ==> (#[trigger] s[i]) != '\u{1b}'
}

/// The shape colored styling gives a message when colors are active: an
/// ANSI style prefix, the message itself, then the reset sequence — and
/// nothing else, so stripping the ANSI sequences recovers the message.
pub open spec fn styled(r: Seq<char>, s: Seq<char>) -> bool {
    exists|n: int|
        #![trigger r.subrange(n, n + s.len() as int)]
        4 <= n && n + s.len() + 4 == r.len() && r[0] == '\u{1b}' && r[1] == '[' && r.subrange(
            n,
            n + s.len() as int,
        ) == s && r.subrange(n + s.len() as int, r.len() as int) == "\u{1b}[0m"@
}

/// What colored messages promise: the result is the message verbatim
/// (colors off), or the message wrapped in a style prefix and the reset
/// sequence, nothing more; and it never shrinks.
pub open spec fn painted(r: Seq<char>, s: Seq<char>) -> bool {
    &&& r.len() >= s.len()
    &&& esc_free(s) ==> (r == s || styled(r, s))
}

/// Relies on colored's `Colorize::blue` and `Display for ColoredString`:
/// with colors off or a plain string the input is returned verbatim;
/// otherwise the output is `compute_style()` (which starts with `ESC [`,
/// at least four characters) + the input + `ESC [0m`, where escape-free
/// input passes through the inner-reset rewriting unchanged.
#[verifier::external_body]
fn paint_blue(s: &str) -> (r: String)
    ensures
        painted(r@, s@),
{
    s.blue().to_string()
}

/// Relies on colored's `Colorize::green`, as `paint_blue` does on `blue`.
#[verifier::external_body]
fn paint_green(s: &str) -> (r: String)
    ensures
        painted(r@, s@),
{
    s.green().to_string()
}

/// Relies on colored's `Colorize::yellow`, as `paint_blue` does on `blue`.
#[verifier::external_body]
fn paint_yellow(s: &str) -> (r: String)
    ensures
        painted(r@, s@),
{
    s.yellow().to_string()
}

/// Relies on colored's `Colorize::red`, as `paint_blue` does on `blue`.
#[verifier::external_body]
fn paint_red(s: &str) -> (r: String)
    ensures
        painted(r@, s@),
{
    s.red().to_string()
}

fn append_u128(out: &mut String, n: u128)
    ensures
        final(out)@ == old(out)@ + dec_digits(n as int),
    decreases n,
{
    if n >= 10 {
        append_u128(out, n / 10);
        crate::loader::push_char(out, crate::loader::digit_to_char((n % 10) as u64));
        proof {
            assert(final(out)@ =~= old(out)@ + dec_digits(n as int));
        }
    } else {
        crate::loader::push_char(out, crate::loader::digit_to_char(n as u64));
        proof {
            assert(final(out)@ =~= old(out)@ + dec_digits(n as int));
        }
    }
}

/// Percentage in tenths of a percent, 0 when the limit is 0.
pub open spec fn pct_tenths(used: u64, limit: u64) -> int {
    if limit == 0 {
        0
    } else {
        (used * 1000) / (limit as int)
    }
}

/// The budget line: used/limit pairs with a one-decimal percentage.
pub open spec fn budget_text(cpu: u64, cpu_limit: u64, mem: u64, mem_limit: u64) -> Seq<char> {
    let ct = pct_tenths(cpu, cpu_limit);
    let mt = pct_tenths(mem, mem_limit);
    "CPU: "@ + dec_digits(cpu as int) + "/"@ + dec_digits(cpu_limit as int) + " ("@ + dec_digits(
        ct / 10,
    ) + "."@ + dec_digits(ct % 10) + "%) | Memory: "@ + dec_digits(mem as int) + "/"@ + dec_digits(
        mem_limit as int,
    ) + " bytes ("@ + dec_digits(mt / 10) + "."@ + dec_digits(mt % 10) + "%)"@
}

fn append_pct(out: &mut String, used: u64, limit: u64)
    ensures
        final(out)@ == old(out)@ + dec_digits(pct_tenths(used, limit) / 10) + "."@ + dec_digits(
            pct_tenths(used, limit) % 10,
        ),
{
    let t: u128 = if limit == 0 {
        0
    } else {
        (used as u128) * 1000 / (limit as u128)
    };
    proof {
        assert(t == pct_tenths(used, limit));
    }
    append_u128(out, t / 10);
    out.append(".");
    append_u128(out, t % 10);
    proof {
        assert(final(out)@ =~= old(out)@ + dec_digits(pct_tenths(used, limit) / 10) + "."@
            + dec_digits(pct_tenths(used, limit) % 10));
    }
}

/// Pretty printing utilities for debugger output.
pub struct Formatter;

impl Formatter {
    /// Format a value for display.
    pub fn format_value(value: &str) -> (r: String)
        ensures
            r@ == value@,
    {
        value.to_owned()
    }

    /// Format a storage key-value pair.
    pub fn format_storage_entry(key: &str, value: &str) -> (r: String)
        ensures
            r@ == key@ + " = "@ + value@,
    {
        let mut r = key.to_owned();
        r.append(" = ");
        r.append(value);
        r
    }

    /// Format a function call.
    pub fn format_function_call(name: &str, args: Option<&str>) -> (r: String)
        ensures
            match args {
                Some(a) => r@ == name@ + "("@ + a@ + ")"@,
                None => r@ == name@ + "()"@,
            },
    {
        let mut r = name.to_owned();
        match args {
            Some(a) => {
                r.append("(");
                r.append(a);
                r.append(")");
            },
            None => {
                r.append("()");
            },
        }
        r
    }

    /// Format budget information: used/limit with a one-decimal percentage
    /// (0.0 when the limit is 0).
    pub fn format_budget(cpu: u64, cpu_limit: u64, mem: u64, mem_limit: u64) -> (r: String)
        ensures
            r@ == budget_text(cpu, cpu_limit, mem, mem_limit),
    {
        let mut out = "CPU: ".to_owned();
        crate::loader::append_u64(&mut out, cpu);
        out.append("/");
        crate::loader::append_u64(&mut out, cpu_limit);
        out.append(" (");
        append_pct(&mut out, cpu, cpu_limit);
        out.append("%) | Memory: ");
        crate::loader::append_u64(&mut out, mem);
        out.append("/");
        crate::loader::append_u64(&mut out, mem_limit);
        out.append(" bytes (");
        append_pct(&mut out, mem, mem_limit);
        out.append("%)");
        proof {
            assert(out@ =~= budget_text(cpu, cpu_limit, mem, mem_limit));
        }
        out
    }

    /// Format an informational message in blue: the message verbatim, or
    /// the message wrapped in an ANSI style prefix and the reset sequence,
    /// nothing else.
    pub fn info(message: &str) -> (r: String)
        ensures
            painted(r@, message@),
    {
        paint_blue(message)
    }

    /// Format a success message in green, as `info` formats in blue.
    pub fn success(message: &str) -> (r: String)
        ensures
            painted(r@, message@),
    {
        paint_green(message)
    }

    /// Format a warning message in yellow, as `info` formats in blue.
    pub fn warning(message: &str) -> (r: String)
        ensures
            painted(r@, message@),
    {
        paint_yellow(message)
    }

    /// Format an error message in red, as `info` formats in blue.
    pub fn error(message: &str) -> (r: String)
        ensures
            painted(r@, message@),
    {
        paint_red(message)
    }

    /// Configure whether ANSI colors are enabled.
    /// Relies on colored's `control::set_override`, which flips a global
    /// flag and returns nothing.
    #[verifier::external_body]
    pub fn configure_colors(enable: bool) {
        colored::control::set_override(enable);
    }
}

} // verus!
