//! Commands that are run for the fetcher.

use crate::path;
use vstd::prelude::*;
use vstd::string::*;
use vstd::utf8::*;

verus! {

/// A program and its arguments.
#[derive(Debug)]
pub struct Invocation {
    pub program: String,
    pub args: Vec<Vec<u8>>,
}

/// The arguments that texts stand for.
pub open spec fn words(list: Seq<Seq<char>>) -> Seq<Seq<u8>> {
    list.map_values(|w: Seq<char>| encode_utf8(w))
}

impl Invocation {
    /// The program without arguments.
    pub fn new(program: &str) -> (r: Invocation)
        ensures
            r.program@ == program@,
            path::names(r.args@) == Seq::<Seq<u8>>::empty(),
    {
        let r = Invocation { program: program.to_owned(), args: Vec::new() };
        assert(path::names(r.args@) =~= Seq::<Seq<u8>>::empty());
        r
    }

    /// The invocation with one more argument.
    pub fn arg_bytes(self, arg: &[u8]) -> (r: Invocation)
        ensures
            r.program == self.program,
            path::names(r.args@) == path::names(self.args@).push(arg@),
    {
        let mut args = self.args;
        args.push(path::copied(arg));
        assert(path::names(args@) =~= path::names(self.args@).push(arg@));
        Invocation { program: self.program, args }
    }

    /// The invocation with one more argument, which is a text.
    pub fn arg(self, arg: &str) -> (r: Invocation)
        ensures
            r.program == self.program,
            path::names(r.args@) == path::names(self.args@).push(encode_utf8(arg@)),
    {
        self.arg_bytes(arg.as_bytes())
    }
}

} // verus!
