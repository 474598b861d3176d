//! Finding a `mermaid` renderer, and the one line of its complaints a build
//! warning quotes. Running it is the caller's.
use vstd::prelude::*;
use crate::text::{chars_of, line_at, next_line, push_all, push_str, string_of, trim, trimmed};

verus! {

/// The environment variable naming an `mmdc` binary.
pub const MMDC_ENV: &'static str = "MIRZAM_MMDC";

/// That `env`, asked for `key`, can answer `v`.
pub open spec fn answers<E: Fn(&str) -> Option<String>>(env: E, key: Seq<char>, v: Option<String>) -> bool {
    exists|k: &str| k@ == key && #[trigger] env.ensures((k,), v)
}

/// That `usable`, asked about `p`, can answer `b`.
pub open spec fn says<U: Fn(&str) -> bool>(usable: U, p: Seq<char>, b: bool) -> bool {
    exists|q: &str| q@ == p && #[trigger] usable.ensures((q,), b)
}

/// `mmdc`, once it has been found.
pub struct Mmdc {
    program: String,
}

impl Mmdc {
    pub closed spec fn program_view(&self) -> Seq<char> {
        self.program@
    }

    /// Discovery with its two questions about the world handed in: what an
    /// environment variable holds, and whether a program there answers.
    /// The variable wins when what it names answers; then `mmdc` on `PATH`.
    pub fn discover_with<E, U>(env: E, usable: U) -> (r: Option<Mmdc>) where
        E: Fn(&str) -> Option<String>,
        U: Fn(&str) -> bool,

        requires
            forall|k: &str| env.requires((k,)),
            forall|p: &str| usable.requires((p,)),
        ensures
            match r {
                Some(m) => (exists|v: String|
                    answers(env, MMDC_ENV@, Some(v)) && v@ == m.program_view() && #[trigger] says(
                        usable,
                        v@,
                        true,
                    )) || (m.program_view() == "mmdc"@ && says(usable, "mmdc"@, true)),
                None => says(usable, "mmdc"@, false),
            },
    {
        let named = env(MMDC_ENV);
        if let Some(n) = named {
            let ns = n.as_str();
            let ok = usable(ns);
            if ok {
                assert(says(usable, n@, true));
                assert(answers(env, MMDC_ENV@, Some(n)));
                return Some(Mmdc { program: n });
            }
        }
        let on_path = "mmdc";
        let ok = usable(on_path);
        if ok {
            assert(says(usable, on_path@, true));
            Some(Mmdc { program: on_path.to_owned() })
        } else {
            assert(says(usable, on_path@, false));
            None
        }
    }

    /// The program a build used, for the record `check` writes.
    pub fn program(&self) -> (r: &str)
        ensures
            r@ == self.program_view(),
    {
        self.program.as_str()
    }
}

/// The first line from `from` on that holds anything once trimmed.
pub open spec fn first_nonblank(s: Seq<char>, from: int) -> Option<Seq<char>>
    decreases s.len() + 1 - from,
{
    if 0 <= from < s.len() && from < next_line(s, from) <= s.len() + 1 {
        let l = trim(line_at(s, from)->0);
        if l.len() > 0 {
            Some(l)
        } else {
            first_nonblank(s, next_line(s, from))
        }
    } else {
        None
    }
}

/// The first line of a tool's diagnostics, prefixed for the warning it
/// joins; nothing when it said nothing.
pub open spec fn first_line_of(stderr: Seq<char>) -> Seq<char> {
    match first_nonblank(stderr, 0) {
        Some(l) => ": "@ + l,
        None => Seq::empty(),
    }
}

pub fn first_line(stderr: &str) -> (r: String)
    ensures
        r@ == first_line_of(stderr@),
{
    let cs = chars_of(stderr);
    let mut from: usize = 0;
    while from < cs.len()
        invariant
            from <= cs@.len(),
            cs@ == stderr@,
            first_nonblank(cs@, 0) == first_nonblank(cs@, from as int),
        decreases cs@.len() - from,
    {
        let (raw, end) = crate::text::read_line(&cs, from);
        proof {
            crate::text::lemma_line_end(cs@, from as int);
        }
        let l = trimmed(&raw);
        assert(l.len() == 0 ==> first_nonblank(cs@, from as int) == first_nonblank(cs@, end + 1));
        if l.len() > 0 {
            let mut out: Vec<char> = Vec::new();
            push_str(&mut out, ": ");
            push_all(&mut out, &l);
            return string_of(out.as_slice());
        }
        if end >= cs.len() {
            from = cs.len();
        } else {
            from = end + 1;
        }
    }
    proof {
        reveal_strlit("");
    }
    "".to_owned()
}

} // verus!
