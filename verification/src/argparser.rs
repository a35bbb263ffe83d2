//! Declared command-line options and the values parsed for them. The
//! embedding application reads the real argument list; this module holds
//! the declarations and answers lookups.

use vstd::prelude::*;

verus! {

use vstd::string::StringExecFns;
use crate::text::str_eq;

/// One declared option: its short and long spellings, a description, and
/// the name of its value when it takes one.
pub struct Arg {
    pub short: String,
    pub long: String,
    pub desc: String,
    pub param: Option<String>,
}

impl Arg {
    /// Declares an option, prefixing the spellings with `-` and `--`.
    pub fn new(short: &str, long: &str, desc: &str, param: Option<String>) -> (r: Arg)
        ensures
            r.short@ == "-"@ + short@,
            r.long@ == "--"@ + long@,
            r.desc@ == desc@,
            r.param == param,
    {
        let mut s = String::from_str("-");
        s.append(short);
        let mut l = String::from_str("--");
        l.append(long);
        Arg { short: s, long: l, desc: String::from_str(desc), param }
    }
}

/// The first declared option a spelling matches, by long or short form.
pub open spec fn find_by_name(args: Seq<Arg>, name: Seq<char>) -> Option<int>
    decreases args.len(),
{
    if args.len() == 0 {
        None
    } else if args[0].long@ == name || args[0].short@ == name {
        Some(0int)
    } else {
        match find_by_name(args.drop_first(), name) {
            Some(i) => Some(i + 1),
            None => None,
        }
    }
}

/// The option declarations and the argument values parsed against them.
pub struct ArgParser {
    pub parsed_args: Vec<(String, Option<String>)>,
    pub desc: String,
    pub defined_args: Vec<Arg>,
}

impl ArgParser {
    /// A parser from its parts; an absent description gets a stock one.
    pub fn new(
        parsed_args: Vec<(String, Option<String>)>,
        desc: Option<&str>,
        defined_args: Vec<Arg>,
    ) -> (r: ArgParser)
        ensures
            r.parsed_args == parsed_args,
            r.defined_args == defined_args,
            match desc {
                Some(d) => r.desc@ == d@,
                None => r.desc@ == "No description set"@,
            },
    {
        ArgParser {
            parsed_args,
            desc: match desc {
                Some(d) => String::from_str(d),
                None => String::from_str("No description set"),
            },
            defined_args,
        }
    }

    /// Declares one more option.
    pub fn define_arg(&mut self, arg: Arg)
        ensures
            final(self).defined_args@ == old(self).defined_args@.push(arg),
            final(self).parsed_args == old(self).parsed_args,
            final(self).desc == old(self).desc,
    {
        self.defined_args.push(arg);
    }

    /// Declares a whole list of options.
    pub fn define_args(&mut self, args: Vec<Arg>)
        ensures
            final(self).defined_args@ == old(self).defined_args@ + args@,
            final(self).parsed_args == old(self).parsed_args,
            final(self).desc == old(self).desc,
    {
        let mut rest = args;
        self.defined_args.append(&mut rest);
    }

    /// The first declared option whose long or short spelling is `name`.
    pub fn get_arg_by_name(&self, name: &str) -> (r: Option<Arg>)
        ensures
            match find_by_name(self.defined_args@, name@) {
                Some(i) => r matches Some(a) && a.short@ == self.defined_args@[i].short@
                    && a.long@ == self.defined_args@[i].long@ && a.desc@
                    == self.defined_args@[i].desc@ && a.param == self.defined_args@[i].param,
                None => r is None,
            },
    {
        let ghost all = self.defined_args@;
        let mut i: usize = 0;
        proof {
            assert(all.skip(0) =~= all);
        }
        while i < self.defined_args.len()
            invariant
                i <= all.len(),
                all == self.defined_args@,
                match find_by_name(all, name@) {
                    Some(k) => find_by_name(all.skip(i as int), name@) matches Some(k2) && k
                        == k2 + i,
                    None => find_by_name(all.skip(i as int), name@) is None,
                },
            decreases all.len() - i,
        {
            let a = &self.defined_args[i];
            proof {
                assert(all.skip(i as int)[0] == all[i as int]);
                assert(all.skip(i as int).drop_first() =~= all.skip(i + 1));
            }
            if str_eq(a.long.as_str(), name) || str_eq(a.short.as_str(), name) {
                return Some(
                    Arg {
                        short: a.short.clone(),
                        long: a.long.clone(),
                        desc: a.desc.clone(),
                        param: clone_opt(&a.param),
                    },
                );
            }
            i = i + 1;
        }
        proof {
            assert(all.skip(all.len() as int).len() == 0);
        }
        None
    }

    /// The parsed option/value pairs.
    pub fn get_parsed(&self) -> (r: Vec<(String, Option<String>)>)
        ensures
            r@.len() == self.parsed_args@.len(),
            forall|i: int|
                0 <= i < r@.len() ==> (#[trigger] r@[i]).0@ == self.parsed_args@[i].0@
                    && r@[i].1 == self.parsed_args@[i].1,
    {
        clone_pairs(&self.parsed_args)
    }
}

/// Copies an optional string.
fn clone_opt(v: &Option<String>) -> (r: Option<String>)
    ensures
        r == v,
{
    match v {
        Some(s) => Some(s.clone()),
        None => None,
    }
}

/// Copies a list of option/value pairs.
pub(crate) fn clone_pairs(v: &Vec<(String, Option<String>)>) -> (r: Vec<(String, Option<String>)>)
    ensures
        r@.len() == v@.len(),
        forall|i: int|
            0 <= i < r@.len() ==> (#[trigger] r@[i]).0@ == v@[i].0@ && r@[i].1 == v@[i].1,
{
    let mut out: Vec<(String, Option<String>)> = Vec::new();
    let mut i: usize = 0;
    while i < v.len()
        invariant
            i <= v@.len(),
            out@.len() == i,
            forall|t: int|
                0 <= t < i ==> (#[trigger] out@[t]).0@ == v@[t].0@ && out@[t].1 == v@[t].1,
        decreases v@.len() - i,
    {
        let pair = &v[i];
        out.push((pair.0.clone(), clone_opt(&pair.1)));
        i = i + 1;
    }
    out
}

} // verus!
