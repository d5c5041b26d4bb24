//! What the interactive loop decides between reading a line and running
//! it: the notices of finished or stopped jobs, which prompt to show,
//! which lines to skip, and the text kept in the history.

use vstd::prelude::*;
use vstd::string::StringSliceAdditionalSpecFns;
use crate::bytes::{i64_to_bytes, spec_decimal, spec_i64_text, u64_to_bytes};
use crate::chars::{is_ws, lit, spec_is_ws, NEWLINE};
use crate::context::{Context, ExpandError};
use crate::params::var_answered;
use crate::prompt::{env_file_path, expand_prompt_exclamation, spec_prompt_excl, trimmed_end};
use crate::scan::{first_non_ws, last_non_ws_end, trim_ascii_whitespace};

verus! {

/// What became of a background job, with its command text; a signal is
/// given by its name.
pub enum ReapedJob {
    /// It exited with this status.
    Done(i32, Vec<u8>),
    /// A signal ended it.
    Signaled(Vec<u8>, Vec<u8>),
    /// A signal stopped it.
    Stopped(Vec<u8>, Vec<u8>),
}

/// The notice for job `id`: `[id] Done`, `[id] Done(status)`,
/// `[id] Terminated (SIG)` or `[id] Stopped (SIG)`, a tab, the command and
/// a newline.
pub open spec fn spec_job_notice(id: usize, job: ReapedJob) -> Seq<u8> {
    let head = "[".spec_bytes() + spec_decimal(id as nat);
    let (middle, command) = match job {
        ReapedJob::Done(status, cmd) => (if status == 0 {
            "] Done\t".spec_bytes()
        } else {
            "] Done(".spec_bytes() + spec_i64_text(status as i64) + ")\t".spec_bytes()
        }, cmd@),
        ReapedJob::Signaled(sig, cmd) => ("] Terminated (".spec_bytes() + sig@ + ")\t".spec_bytes(), cmd@),
        ReapedJob::Stopped(sig, cmd) => ("] Stopped (".spec_bytes() + sig@ + ")\t".spec_bytes(), cmd@),
    };
    head + middle + command + seq![NEWLINE]
}

/// The notice the shell prints for a job it reaped.
pub fn job_notice(id: usize, job: &ReapedJob) -> (r: Vec<u8>)
    ensures
        r@ == spec_job_notice(id, *job),
{
    let mut out = lit("[");
    let mut digits = u64_to_bytes(id as u64);
    out.append(&mut digits);
    match job {
        ReapedJob::Done(status, cmd) => {
            if *status == 0 {
                let mut m = lit("] Done\t");
                out.append(&mut m);
            } else {
                let mut m = lit("] Done(");
                out.append(&mut m);
                let mut s = i64_to_bytes(*status as i64);
                out.append(&mut s);
                let mut c = lit(")\t");
                out.append(&mut c);
            }
            out.extend_from_slice(cmd.as_slice());
        },
        ReapedJob::Signaled(sig, cmd) => {
            let mut m = lit("] Terminated (");
            out.append(&mut m);
            out.extend_from_slice(sig.as_slice());
            let mut c = lit(")\t");
            out.append(&mut c);
            out.extend_from_slice(cmd.as_slice());
        },
        ReapedJob::Stopped(sig, cmd) => {
            let mut m = lit("] Stopped (");
            out.append(&mut m);
            out.extend_from_slice(sig.as_slice());
            let mut c = lit(")\t");
            out.append(&mut c);
            out.extend_from_slice(cmd.as_slice());
        },
    }
    out.push(NEWLINE);
    assert(out@ =~= spec_job_notice(id, *job));
    out
}

/// The prompt variable to expand and its default: `PS1` and `$ ` for a
/// new command, `PS2` and `> ` while a command continues.
pub fn prompt_choice(continuing: bool) -> (r: (Vec<u8>, Vec<u8>))
    ensures
        r.0@ == (if continuing { "PS2".spec_bytes() } else { "PS1".spec_bytes() }),
        r.1@ == (if continuing { "> ".spec_bytes() } else { "$ ".spec_bytes() }),
{
    if continuing {
        (lit("PS2"), lit("> "))
    } else {
        (lit("PS1"), lit("$ "))
    }
}

/// Whether `out` is the prompt shown for the prompt text `raw` by the
/// shell, from state `c0` to `c1`: the text after parameter expansion, or
/// as it was where the expansion failed, then with `!` replaced by the
/// history number; where `raw` holds no `$`, or only `$name` and
/// `${name}`, the shell state stays as it was.
pub open spec fn prompt_fits<C: Context>(c0: &C, c1: &C, raw: Seq<u8>, histnum: usize, out: Seq<u8>) -> bool {
    let h = spec_decimal(histnum as nat);
    &&& !raw.contains(crate::chars::DOLLAR) ==> out == spec_prompt_excl(raw, 0, h) && *c1 == *c0
    &&& crate::expand::text_names_only(raw) ==> *c1 == *c0 && exists|x: Result<Seq<u8>, Seq<u8>>| #[trigger]
        crate::expand::param_text_fits(c0, raw, 0, x) && out == spec_prompt_excl(
        match x {
            Ok(o) => o,
            Err(_) => raw,
        },
        0,
        h,
    )
}

/// The prompt shown: the value of `var` (or `default` where it is unset)
/// after parameter expansion, kept as it was where the expansion fails,
/// then with `!` replaced by the history number `histnum`.
pub fn expand_prompt<C: Context>(ctx: &mut C, var: &[u8], default: &[u8], histnum: usize) -> (r: Vec<u8>)
    ensures
        exists|v: Option<Seq<u8>>| #[trigger] var_answered(&*old(ctx), var@, v) && prompt_fits(
            &*old(ctx),
            &*final(ctx),
            match v {
                Some(t) => t,
                None => default@,
            },
            histnum,
            r@,
        ),
{
    let looked = ctx.env_var(var);
    assert(call_ensures(C::env_var, (&*ctx, var), looked));
    let ghost v = crate::params::opt_view(looked);
    assert(var_answered(&*old(ctx), var@, v));
    let raw = match looked {
        Some(t) => t,
        None => vstd::slice::slice_to_vec(default),
    };
    let ghost raw_v = raw@;
    assert(raw_v == match v {
        Some(t) => t,
        None => default@,
    });
    let expanded = crate::expand::expand_parameter_text(ctx, raw.as_slice());
    let ghost x = crate::params::text_view(expanded);
    let shown = match expanded {
        Ok(t) => t,
        Err(_) => raw,
    };
    assert(shown@ == match x {
        Ok(o) => o,
        Err(_) => raw_v,
    });
    proof {
        if crate::expand::text_names_only(raw_v) {
            assert(crate::expand::param_text_fits(&*old(ctx), raw_v, 0, x));
        }
    }
    let out = expand_prompt_exclamation(shown.as_slice(), histnum);
    assert(prompt_fits(&*old(ctx), &*ctx, raw_v, histnum, out@));
    out
}

/// Whether a line read at the start of a command is skipped: nothing
/// accumulated yet and the line is only whitespace.
pub fn skips_line(accumulated: &[u8], line: &[u8]) -> (r: bool)
    ensures
        r == (accumulated@.len() == 0 && forall|k: int| 0 <= k < line@.len() ==> spec_is_ws(#[trigger] line@[k])),
{
    if accumulated.len() > 0 {
        return false;
    }
    let mut i: usize = 0;
    while i < line.len()
        invariant
            i <= line@.len(),
            forall|k: int| 0 <= k < i ==> spec_is_ws(#[trigger] line@[k]),
        decreases line@.len() - i,
    {
        if !is_ws(line[i]) {
            return false;
        }
        i += 1;
    }
    true
}

/// The notice printed where input ends inside an unfinished command.
pub fn eof_notice(accumulated: &[u8]) -> (r: Option<Vec<u8>>)
    ensures
        accumulated@.len() == 0 ==> r is None,
        accumulated@.len() > 0 ==> (r matches Some(m) && m@
            == "meiksh: unexpected EOF while looking for matching token\n".spec_bytes()),
{
    if accumulated.len() == 0 {
        None
    } else {
        Some(lit("meiksh: unexpected EOF while looking for matching token\n"))
    }
}

/// The texts a complete command leaves for the history: for the history
/// file, the source without its trailing blanks and newlines; for the
/// in-memory list, the source without leading and trailing whitespace.
pub fn history_texts(source: &[u8]) -> (r: (Vec<u8>, Vec<u8>))
    ensures
        r.0@ == source@.subrange(0, trimmed_end(source@, source@.len() as int)),
        r.1@ == source@.subrange(
            first_non_ws(source@, 0),
            last_non_ws_end(source@, first_non_ws(source@, 0), source@.len() as int),
        ),
{
    let mut end = source.len();
    while end > 0 && (source[end - 1] == crate::chars::SPACE || source[end - 1] == crate::chars::TAB
        || source[end - 1] == NEWLINE || source[end - 1] == crate::chars::CR)
        invariant
            end <= source@.len(),
            trimmed_end(source@, source@.len() as int) == trimmed_end(source@, end as int),
        decreases end,
    {
        end -= 1;
    }
    let kept = vstd::slice::slice_to_vec(vstd::slice::slice_subrange(source, 0, end));
    let trimmed = vstd::slice::slice_to_vec(trim_ascii_whitespace(source));
    (kept, trimmed)
}

/// Whether `r` is what start-up makes of `ENV` expanded to `x`: the text
/// where it is an absolute path, nothing where it is not, the error where
/// the expansion failed.
pub open spec fn env_path_fits(x: Result<Seq<u8>, Seq<u8>>, r: Result<Option<Vec<u8>>, ExpandError>) -> bool {
    match x {
        Ok(out) => r matches Ok(p) && (p is Some <==> (out.len() > 0 && out[0] == crate::chars::SLASH)) && (p matches Some(
            q,
        ) ==> q@ == out),
        Err(m) => r matches Err(e) && e.message@ == m,
    }
}

/// The file named by `$ENV` that start-up reads, given whether the real
/// and effective user and group ids agree: nothing where they differ;
/// else the value of `ENV` after parameter expansion, where it is an
/// absolute path; an error of that expansion is passed on. Whether the
/// file exists is for the caller to ask.
pub fn env_file_to_source<C: Context>(ctx: &mut C, same_ids: bool) -> (r: Result<Option<Vec<u8>>, ExpandError>)
    ensures
        !same_ids ==> (r matches Ok(None) && *final(ctx) == *old(ctx)),
        r matches Ok(Some(q)) ==> q@.len() > 0 && q@[0] == crate::chars::SLASH,
        same_ids ==> exists|v: Option<Seq<u8>>| #[trigger] var_answered(&*old(ctx), "ENV".spec_bytes(), v) && match v {
            None => r matches Ok(None) && *final(ctx) == *old(ctx),
            Some(t) => {
                &&& r is Err ==> t.contains(crate::chars::DOLLAR)
                &&& !t.contains(crate::chars::DOLLAR) ==> (r matches Ok(p) && (p is Some <==> (t.len() > 0 && t[0]
                    == crate::chars::SLASH)) && (p matches Some(q) ==> q@ == t))
                &&& crate::expand::text_names_only(t) ==> *final(ctx) == *old(ctx) && exists|x: Result<
                    Seq<u8>,
                    Seq<u8>,
                >| #[trigger] crate::expand::param_text_fits(&*old(ctx), t, 0, x) && env_path_fits(x, r)
                &&& crate::expand::text_names_only(t) && crate::params::nounset_off(&*old(ctx)) ==> r is Ok
            },
        },
{
    if !same_ids {
        return Ok(None);
    }
    let name = lit("ENV");
    let name_slice = name.as_slice();
    let value = ctx.env_var(name_slice);
    assert(call_ensures(C::env_var, (&*ctx, name_slice), value));
    let ghost v = crate::params::opt_view(value);
    assert(var_answered(&*old(ctx), "ENV".spec_bytes(), v));
    match value {
        None => Ok(None),
        Some(text) => {
            let expanded = crate::expand::expand_parameter_text(ctx, text.as_slice())?;
            Ok(env_file_path(expanded))
        },
    }
}

} // verus!
