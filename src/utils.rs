//! Where written text goes.
use vstd::prelude::*;
use std::io::Write;
use crate::text::{chars_of, string_from_chars};

verus! {

#[verifier::external_type_specification]
#[verifier::external_body]
pub struct ExStdout(std::io::Stdout);

/// Relies on `Write::write_all` for `Stdout`: sends the bytes of `msg` to
/// the standard output. Nothing is promised, as a write may fail.
#[verifier::external_body]
fn write_to_stdout(out: &mut std::io::Stdout, msg: &str) {
    let _ = out.write_all(msg.as_bytes());
}

/// All of `parts`, one after the other.
pub open spec fn joined(parts: Seq<String>) -> Seq<char>
    decreases parts.len(),
{
    if parts.len() == 0 {
        Seq::empty()
    } else {
        joined(parts.drop_last()) + parts.last()@
    }
}

/// A place to write text: the standard output, or a list kept in memory.
pub enum Output {
    Stdout(std::io::Stdout),
    Vector(Vec<String>),
}

impl Output {
    /// Writes `msg`.
    pub fn write(&mut self, msg: String)
        ensures
            *old(self) is Vector ==> *final(self) is Vector && (*final(self))->Vector_0@ == (
            *old(self))->Vector_0@.push(msg),
            *old(self) is Stdout ==> *final(self) is Stdout,
    {
        match self {
            Output::Stdout(out) => {
                write_to_stdout(out, msg.as_str());
            },
            Output::Vector(out) => {
                out.push(msg);
            },
        }
    }

    /// Everything written so far, for a list kept in memory.
    pub fn read(&self) -> (r: String)
        requires
            *self is Vector,
        ensures
            r@ == joined((*self)->Vector_0@),
    {
        match self {
            Output::Stdout(_) => String::new(),
            Output::Vector(v) => {
                let mut out: Vec<char> = Vec::new();
                let mut i: usize = 0;
                while i < v.len()
                    invariant
                        i <= v@.len(),
                        out@ == joined(v@.take(i as int)),
                    decreases v.len() - i,
                {
                    let part = chars_of(v[i].as_str());
                    let mut j: usize = 0;
                    let ghost start = out@;
                    while j < part.len()
                        invariant
                            j <= part@.len(),
                            out@ == start + part@.take(j as int),
                        decreases part.len() - j,
                    {
                        out.push(part[j]);
                        j = j + 1;
                        assert(out@ =~= start + part@.take(j as int));
                    }
                    assert(v@.take(i + 1).drop_last() =~= v@.take(i as int));
                    i = i + 1;
                    assert(out@ =~= joined(v@.take(i as int)));
                }
                assert(v@.take(v@.len() as int) =~= v@);
                string_from_chars(&out)
            },
        }
    }
}

} // verus!
