//! Compositor command construction.
//!
//! Turns a resolved profile into a runnable command: the flag list derived
//! from the merged options in lexicographic key order, the HDR flags when
//! HDR is on, the complete environment listing, and the child command the
//! compositor wraps.

use vstd::prelude::*;
use vstd::string::StringExecFns;

use crate::assoc::{
    alist_sort_keys, canon, clone_strings, map_of, pview, sorted_lt_keys,
};
use crate::config::{duplicate_options, OptionValue, OptionValueView};
use crate::numfmt::{i64_dec_string, int_str};
use crate::profile::{env_map, workaround_needed, ResolvedProfile};

verus! {

/// The command-line tokens one option contributes: a flag for a true
/// boolean, nothing for a false one, the flag and the value's text
/// otherwise.
pub open spec fn opt_tokens(p: (Seq<char>, OptionValueView)) -> Seq<Seq<char>> {
    match p.1 {
        OptionValueView::Bool(b) => if b {
            seq!["--"@ + p.0]
        } else {
            Seq::empty()
        },
        OptionValueView::Int(i) => seq!["--"@ + p.0, int_str(i)],
        OptionValueView::Text(t) => seq!["--"@ + p.0, t],
    }
}

/// The tokens of a whole option list, in the order it is given.
pub open spec fn args_of(opts: Seq<(Seq<char>, OptionValueView)>) -> Seq<Seq<char>>
    decreases opts.len(),
{
    if opts.len() == 0 {
        Seq::empty()
    } else {
        args_of(opts.drop_last()) + opt_tokens(opts.last())
    }
}

/// The flags appended when HDR is on.
pub open spec fn hdr_flags() -> Seq<Seq<char>> {
    seq!["--hdr-enabled"@, "--hdr-debug-force-output"@, "--hdr-debug-force-support"@]
}

/// Tokens joined by single spaces.
pub open spec fn join_spaces(parts: Seq<Seq<char>>) -> Seq<char>
    decreases parts.len(),
{
    if parts.len() == 0 {
        Seq::empty()
    } else if parts.len() == 1 {
        parts[0]
    } else {
        join_spaces(parts.drop_last()) + " "@ + parts.last()
    }
}

/// A complete compositor invocation, ready to hand to process replacement.
#[derive(Debug)]
pub struct GamescopeCommand {
    pub binary: String,
    pub args: Vec<String>,
    pub env: Vec<(String, String)>,
    /// Names to remove from the inherited environment of the child.
    pub unset: Vec<String>,
    pub child: Vec<String>,
    pub needs_workaround: bool,
}

/// Mathematical value of a [`GamescopeCommand`].
pub struct GamescopeCommandView {
    pub binary: Seq<char>,
    pub args: Seq<Seq<char>>,
    pub env: Seq<(Seq<char>, Seq<char>)>,
    pub unset: Seq<Seq<char>>,
    pub child: Seq<Seq<char>>,
    pub needs_workaround: bool,
}

impl View for GamescopeCommand {
    type V = GamescopeCommandView;

    open spec fn view(&self) -> GamescopeCommandView {
        GamescopeCommandView {
            binary: self.binary@,
            args: self.args@.map_values(|s: String| s@),
            env: pview(self.env@),
            unset: self.unset@.map_values(|s: String| s@),
            child: self.child@.map_values(|s: String| s@),
            needs_workaround: self.needs_workaround,
        }
    }
}

/// A `--key` flag.
fn flag_string(key: &str) -> (r: String)
    ensures
        r@ == "--"@ + key@,
{
    let mut s = "--".to_owned();
    s.append(key);
    s
}

/// Derives the option flags of a resolved profile: each merged option, in
/// lexicographic key order, contributes its tokens.
pub fn build_args(profile: &ResolvedProfile) -> (r: Vec<String>)
    ensures
        r@.map_values(|s: String| s@) == args_of(canon(pview(profile.options@))),
{
    let sorted = alist_sort_keys(duplicate_options(&profile.options));
    let ghost sview = pview(sorted@);
    let mut args: Vec<String> = Vec::new();
    let mut i: usize = 0;
    while i < sorted.len()
        invariant
            i <= sorted.len(),
            sview == pview(sorted@),
            args@.map_values(|s: String| s@) == args_of(sview.take(i as int)),
        decreases sorted.len() - i,
    {
        let ghost before = args@.map_values(|s: String| s@);
        let entry = &sorted[i];
        match &entry.1 {
            OptionValue::Bool(b) => {
                if *b {
                    args.push(flag_string(entry.0.as_str()));
                }
            },
            OptionValue::Int(n) => {
                args.push(flag_string(entry.0.as_str()));
                args.push(i64_dec_string(*n));
            },
            OptionValue::Text(t) => {
                args.push(flag_string(entry.0.as_str()));
                args.push(t.clone());
            },
        }
        proof {
            assert(sview.take(i + 1).drop_last() =~= sview.take(i as int));
            assert(sview.take(i + 1).last() == sview[i as int]);
            assert(sview[i as int] == (sorted@[i as int].0@, sorted@[i as int].1@));
            assert(args@.map_values(|s: String| s@) =~= before + opt_tokens(sview[i as int]));
            assert(args@.map_values(|s: String| s@) =~= args_of(sview.take(i + 1)));
        }
        i = i + 1;
    }
    proof {
        assert(sview.take(sview.len() as int) =~= sview);
    }
    args
}

/// A copy of a borrowed list of strings.
fn slice_strings(v: &[String]) -> (r: Vec<String>)
    ensures
        r@ == v@,
{
    let mut r: Vec<String> = Vec::new();
    let mut i: usize = 0;
    while i < v.len()
        invariant
            i <= v@.len(),
            r@ == v@.take(i as int),
        decreases v@.len() - i,
    {
        r.push(v[i].clone());
        proof {
            assert(v@.take(i + 1).drop_last() =~= v@.take(i as int));
            assert(r@ =~= v@.take(i + 1));
        }
        i = i + 1;
    }
    proof {
        assert(v@.take(v@.len() as int) =~= v@);
    }
    r
}

/// Builds the complete compositor invocation for a resolved profile and a
/// child command: the sorted option flags, the HDR flags when HDR is on,
/// the environment listing, the unset names, and the workaround mark.
pub fn build(profile: &ResolvedProfile, child_cmd: &[String]) -> (r: GamescopeCommand)
    ensures
        r@.binary == profile@.binary,
        r@.args == args_of(canon(profile@.options)) + (if profile.use_hdr {
            hdr_flags()
        } else {
            Seq::<Seq<char>>::empty()
        }),
        map_of(r@.env) == env_map(profile@),
        sorted_lt_keys(r@.env),
        r@.unset == profile@.unset_vars,
        r@.child == child_cmd@.map_values(|s: String| s@),
        r@.needs_workaround == workaround_needed(profile@),
{
    let mut args = build_args(profile);
    let ghost base_args = args@.map_values(|s: String| s@);
    if profile.use_hdr {
        args.push("--hdr-enabled".to_owned());
        args.push("--hdr-debug-force-output".to_owned());
        args.push("--hdr-debug-force-support".to_owned());
        proof {
            assert(args@.map_values(|s: String| s@) =~= base_args + hdr_flags());
        }
    } else {
        proof {
            assert(args@.map_values(|s: String| s@) =~= base_args
                + Seq::<Seq<char>>::empty());
        }
    }
    let r = GamescopeCommand {
        binary: profile.binary.clone(),
        args,
        env: profile.environment(),
        unset: clone_strings(&profile.unset_vars),
        child: slice_strings(child_cmd),
        needs_workaround: profile.needs_hdr_workaround(),
    };
    proof {
        assert(r@.unset =~= profile@.unset_vars);
        assert(r@.child =~= child_cmd@.map_values(|s: String| s@));
    }
    r
}

/// The one-line rendering of a command: binary, option flags, the `--`
/// separator, the workaround prefix when needed, and the child command.
pub open spec fn display_text(c: GamescopeCommandView) -> Seq<char> {
    c.binary + " "@ + join_spaces(c.args) + " --"@ + (if c.needs_workaround {
        " env DISABLE_HDR_WSI=1"@
    } else {
        Seq::<char>::empty()
    }) + " "@ + join_spaces(c.child)
}

/// Joins tokens with single spaces.
fn join_space_strings(parts: &Vec<String>) -> (r: String)
    ensures
        r@ == join_spaces(parts@.map_values(|s: String| s@)),
{
    let ghost pv = parts@.map_values(|s: String| s@);
    let mut s = String::new();
    let mut i: usize = 0;
    while i < parts.len()
        invariant
            i <= parts.len(),
            pv == parts@.map_values(|s: String| s@),
            s@ == join_spaces(pv.take(i as int)),
        decreases parts.len() - i,
    {
        if i > 0 {
            s.append(" ");
        }
        s.append(parts[i].as_str());
        proof {
            assert(pv.take(i + 1).drop_last() =~= pv.take(i as int));
            assert(pv.take(i + 1).last() == pv[i as int]);
            assert(pv[i as int] == parts@[i as int]@);
            if i == 0 {
                assert(s@ =~= join_spaces(pv.take(1)));
            } else {
                assert(s@ =~= join_spaces(pv.take(i + 1)));
            }
        }
        i = i + 1;
    }
    proof {
        assert(pv.take(pv.len() as int) =~= pv);
    }
    s
}

impl GamescopeCommand {
    /// Renders the command on one line, for logging or a dry run.
    pub fn display(&self) -> (r: String)
        ensures
            r@ == display_text(self@),
    {
        let mut s = self.binary.clone();
        s.append(" ");
        let args_str = join_space_strings(&self.args);
        s.append(args_str.as_str());
        s.append(" --");
        if self.needs_workaround {
            s.append(" env DISABLE_HDR_WSI=1");
        }
        s.append(" ");
        let child_str = join_space_strings(&self.child);
        s.append(child_str.as_str());
        proof {
            assert(s@ =~= display_text(self@));
        }
        s
    }
}

} // verus!
