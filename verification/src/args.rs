//! The arguments of a run: where the documents come from and what is asked
//! of them.

use crate::text::{decimal_text, natural_text};
use vstd::prelude::*;

verus! {

/// The arguments of a run: the file to read, if any, and the query, if any.
#[derive(Debug)]
pub struct CmdArgs {
    input_file: Option<String>,
    query: Option<String>,
}

/// The message for a wrong number of arguments.
pub open spec fn wrong_count_message(n: nat) -> Seq<char> {
    "Wrong number of arguments passed, jqr expects 0, 1 or 2 args. Passed= "@ + decimal_text(n)
}

impl CmdArgs {
    /// The name of the file to read, if one was given.
    pub closed spec fn file(&self) -> Option<Seq<char>> {
        match self.input_file {
            Some(f) => Some(f@),
            None => None,
        }
    }

    /// The text of the query, if one was given.
    pub closed spec fn asked(&self) -> Option<Seq<char>> {
        match self.query {
            Some(q) => Some(q@),
            None => None,
        }
    }

    /// The arguments of a run, from the words of a command line: the program's
    /// name, then nothing, or a query, or a file and a query. A single empty
    /// word after the name stands for no query. Any other number of words is
    /// refused, with a message that says how many there were.
    pub fn new(args: &[String]) -> (r: Result<CmdArgs, String>)
        ensures
            match r {
                Ok(c) => {
                    &&& 1 <= args@.len() <= 3
                    &&& c.file() == (if args@.len() == 3 {
                        Some(args@[1]@)
                    } else {
                        None
                    })
                    &&& c.asked() == (if args@.len() == 3 {
                        Some(args@[2]@)
                    } else if args@.len() == 2 && args@[1]@.len() > 0 {
                        Some(args@[1]@)
                    } else {
                        None
                    })
                },
                Err(msg) => (args@.len() == 0 || args@.len() > 3) && msg@ == wrong_count_message(
                    args@.len(),
                ),
            },
    {
        let n = args.len();
        if n == 3 {
            Ok(CmdArgs { input_file: Some(args[1].clone()), query: Some(args[2].clone()) })
        } else if n == 2 {
            if args[1].as_str().is_empty() {
                Ok(CmdArgs { input_file: None, query: None })
            } else {
                Ok(CmdArgs { input_file: None, query: Some(args[1].clone()) })
            }
        } else if n == 1 {
            Ok(CmdArgs { input_file: None, query: None })
        } else {
            let mut msg =
                "Wrong number of arguments passed, jqr expects 0, 1 or 2 args. Passed= ".to_owned();
            let count = natural_text(n as u64);
            msg.append(count.as_str());
            Err(msg)
        }
    }

    /// The name of the file to read, if one was given.
    pub fn input_file(&self) -> (r: &Option<String>)
        ensures
            match r {
                Some(f) => self.file() == Some(f@),
                None => self.file() is None,
            },
    {
        &self.input_file
    }

    /// The text of the query, if one was given.
    pub fn query(&self) -> (r: &Option<String>)
        ensures
            match r {
                Some(q) => self.asked() == Some(q@),
                None => self.asked() is None,
            },
    {
        &self.query
    }
}

} // verus!
