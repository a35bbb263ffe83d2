//! The fixed option table of the plain-text command set, with syntax
//! checks on received arguments. The embedding application walks the real
//! argument list; this module answers what an argument means.

use vstd::prelude::*;

verus! {

use vstd::string::StringExecFns;
use crate::text::{str_eq, first_char_idx, split_once_char};

/// One option of the table.
pub struct Arg {
    pub short: String,
    pub long: String,
    pub desc: String,
    pub param: Option<String>,
}

impl Arg {
    /// Declares an option, prefixing the spellings with `-` and `--`.
    pub fn new(short: &str, long: &str, desc: &str, param: Option<String>) -> (r: Arg)
        ensures
            r.short@ == "-"@ + short@,
            r.long@ == "--"@ + long@,
            r.desc@ == desc@,
            r.param == param,
    {
        let mut s = String::from_str("-");
        s.append(short);
        let mut l = String::from_str("--");
        l.append(long);
        Arg { short: s, long: l, desc: String::from_str(desc), param }
    }

    /// One help line: the spellings, the value name if any, and the
    /// description, in fixed columns.
    pub fn to_string(&self) -> (r: String)
        ensures
            match self.param {
                Some(p) => r@ == pad_to(self.short@, 6) + " "@ + pad_to(self.long@, 20) + " = "@
                    + pad_to("<"@ + p@ + ">"@, 10) + "\t"@ + self.desc@,
                None => r@ == pad_to(self.short@, 6) + " "@ + pad_to(self.long@, 33) + "\t"@
                    + self.desc@,
            },
    {
        match &self.param {
            Some(p) => {
                let mut wrapped = String::from_str("<");
                wrapped.append(p.as_str());
                wrapped.append(">");
                let mut out = pad_string(self.short.as_str(), 6);
                out.append(" ");
                let padded_long = pad_string(self.long.as_str(), 20);
                out.append(padded_long.as_str());
                out.append(" = ");
                let padded_param = pad_string(wrapped.as_str(), 10);
                out.append(padded_param.as_str());
                out.append("\t");
                out.append(self.desc.as_str());
                proof {
                    reveal_strlit("<");
                    reveal_strlit(">");
                    assert(wrapped@ =~= "<"@ + p@ + ">"@);
                }
                out
            },
            None => {
                let mut out = pad_string(self.short.as_str(), 6);
                out.append(" ");
                let padded_long = pad_string(self.long.as_str(), 33);
                out.append(padded_long.as_str());
                out.append("\t");
                out.append(self.desc.as_str());
                out
            },
        }
    }
}

/// A run of spaces.
pub open spec fn spaces(n: nat) -> Seq<char> {
    Seq::new(n, |i: int| ' ')
}

/// Text padded with spaces to at least the given width.
pub open spec fn pad_to(s: Seq<char>, w: nat) -> Seq<char> {
    if s.len() >= w {
        s
    } else {
        s + spaces((w - s.len()) as nat)
    }
}

/// Pads text with trailing spaces to at least the given width.
fn pad_string(s: &str, w: usize) -> (r: String)
    ensures
        r@ == pad_to(s@, w as nat),
{
    let mut out = String::from_str(s);
    let n = s.unicode_len();
    if n >= w {
        proof {
            assert(out@ =~= pad_to(s@, w as nat));
        }
        return out;
    }
    let mut i: usize = n;
    while i < w
        invariant
            s@.len() <= i <= w,
            out@ == s@ + spaces((i - s@.len()) as nat),
        decreases w - i,
    {
        out.append(" ");
        proof {
            reveal_strlit(" ");
            assert(" "@ =~= seq![' ']);
            assert(s@ + spaces((i - s@.len()) as nat) + seq![' '] =~= s@ + spaces(
                (i + 1 - s@.len()) as nat,
            ));
        }
        i = i + 1;
    }
    out
}

/// The first option a spelling matches, by short or long form.
pub open spec fn find_arg(args: Seq<Arg>, head: Seq<char>) -> Option<int>
    decreases args.len(),
{
    if args.len() == 0 {
        None
    } else if args[0].short@ == head || args[0].long@ == head {
        Some(0int)
    } else {
        match find_arg(args.drop_first(), head) {
            Some(i) => Some(i + 1),
            None => None,
        }
    }
}

/// The spelling part of an argument: everything before the first `=`.
pub open spec fn arg_head(arg: Seq<char>) -> Seq<char> {
    match first_char_idx(arg, '=') {
        Some(k) => arg.take(k),
        None => arg,
    }
}

/// The received arguments and the option table they are read against.
pub struct ArgParser {
    pub recargs: Vec<(String, Option<String>)>,
    pub desc: String,
    pub validarg: Vec<Arg>,
}

impl ArgParser {
    /// The client's option table.
    pub fn new() -> (r: ArgParser)
        ensures
            r.recargs@.len() == 0,
            r.desc@ == "The AcaciaLinux branch client rewritten in rust."@,
            r.validarg@.len() == 24,
            r.validarg@[0].short@ == "-"@ + "h"@ && r.validarg@[0].long@ == "--"@ + "help"@
                && (r.validarg@[0].param is None),
            r.validarg@[1].short@ == "-"@ + "ds"@ && r.validarg@[1].long@ == "--"@ + "debugshell"@
                && (r.validarg@[1].param is None),
            r.validarg@[2].short@ == "-"@ + "c"@ && r.validarg@[2].long@ == "--"@ + "checkout"@
                && (r.validarg@[2].param is Some),
            r.validarg@[3].short@ == "-"@ + "t"@ && r.validarg@[3].long@ == "--"@ + "template"@
                && (r.validarg@[3].param is None),
            r.validarg@[4].short@ == "-"@ + "s"@ && r.validarg@[4].long@ == "--"@ + "submit"@
                && (r.validarg@[4].param is Some),
            r.validarg@[5].short@ == "-"@ + "rb"@ && r.validarg@[5].long@ == "--"@ + "releasebuild"@
                && (r.validarg@[5].param is Some),
            r.validarg@[6].short@ == "-"@ + "cb"@ && r.validarg@[6].long@ == "--"@ + "crossbuild"@
                && (r.validarg@[6].param is Some),
            r.validarg@[7].short@ == "-"@ + "vl"@ && r.validarg@[7].long@ == "--"@ + "viewlog"@
                && (r.validarg@[7].param is Some),
            r.validarg@[8].short@ == "-"@ + "vll"@ && r.validarg@[8].long@ == "--"@ + "viewlastlog"@
                && (r.validarg@[8].param is None),
            r.validarg@[9].short@ == "-"@ + "st"@ && r.validarg@[9].long@ == "--"@ + "status"@
                && (r.validarg@[9].param is None),
            r.validarg@[10].short@ == "-"@ + "w"@ && r.validarg@[10].long@ == "--"@ + "watchjobs"@
                && (r.validarg@[10].param is Some),
            r.validarg@[11].short@ == "-"@ + "cs"@ && r.validarg@[11].long@ == "--"@ + "clientstatus"@
                && (r.validarg@[11].param is None),
            r.validarg@[12].short@ == "-"@ + "cj"@ && r.validarg@[12].long@ == "--"@ + "clearjobs"@
                && (r.validarg@[12].param is None),
            r.validarg@[13].short@ == "-"@ + "caj"@ && r.validarg@[13].long@ == "--"@ + "cancelalljobs"@
                && (r.validarg@[13].param is None),
            r.validarg@[14].short@ == "-"@ + "cn"@ && r.validarg@[14].long@ == "--"@ + "canceljob"@
                && (r.validarg@[14].param is Some),
            r.validarg@[15].short@ == "-"@ + "mp"@ && r.validarg@[15].long@ == "--"@ + "managedpkgs"@
                && (r.validarg@[15].param is None),
            r.validarg@[16].short@ == "-"@ + "mk"@ && r.validarg@[16].long@ == "--"@ + "managedpkgbuilds"@
                && (r.validarg@[16].param is None),
            r.validarg@[17].short@ == "-"@ + "dp"@ && r.validarg@[17].long@ == "--"@ + "differencepkgs"@
                && (r.validarg@[17].param is None),
            r.validarg@[18].short@ == "-"@ + "sys"@ && r.validarg@[18].long@ == "--"@ + "viewsyslog"@
                && (r.validarg@[18].param is None),
            r.validarg@[19].short@ == "-"@ + "vd"@ && r.validarg@[19].long@ == "--"@ + "viewdependers"@
                && (r.validarg@[19].param is Some),
            r.validarg@[20].short@ == "-"@ + "vdp"@ && r.validarg@[20].long@ == "--"@ + "viewdependencies"@
                && (r.validarg@[20].param is Some),
            r.validarg@[21].short@ == "-"@ + "rd"@ && r.validarg@[21].long@ == "--"@ + "rebuilddependers"@
                && (r.validarg@[21].param is Some),
            r.validarg@[22].short@ == "-"@ + "rbs"@ && r.validarg@[22].long@ == "--"@ + "releasebuildsol"@
                && (r.validarg@[22].param is Some),
            r.validarg@[23].short@ == "-"@ + "cbs"@ && r.validarg@[23].long@ == "--"@ + "crossbuildsol"@
                && (r.validarg@[23].param is Some),
    {
        let mut validarg: Vec<Arg> = Vec::new();
        validarg.push(Arg::new("h", "help", "Prints this help dialogue.", None));
        validarg.push(
            Arg::new("ds", "debugshell", "Runs a debugshell on the remote server.", None),
        );
        validarg.push(
            Arg::new(
                "c",
                "checkout",
                "Checks out the specified packagebuild from the server.",
                Some(String::from_str("name")),
            ),
        );
        validarg.push(Arg::new("t", "template", "Creates a template packagebuild.", None));
        validarg.push(
            Arg::new(
                "s",
                "submit",
                "Submits the specified packagebuild file to the server.",
                Some(String::from_str("filename")),
            ),
        );
        validarg.push(
            Arg::new(
                "rb",
                "releasebuild",
                "Requests a releasebuild for the specified package.",
                Some(String::from_str("name")),
            ),
        );
        validarg.push(
            Arg::new(
                "cb",
                "crossbuild",
                "Requests a crossbuild for the specified package.",
                Some(String::from_str("name")),
            ),
        );
        validarg.push(
            Arg::new(
                "vl",
                "viewlog",
                "Requests build log of the specified completed job.",
                Some(String::from_str("job_id")),
            ),
        );
        validarg.push(
            Arg::new("vll", "viewlastlog", "Requests the log of the last job that completed.", None),
        );
        validarg.push(
            Arg::new("st", "status", "Requests a list of running / completed / queued jobs.", None),
        );
        validarg.push(
            Arg::new(
                "w",
                "watchjobs",
                "Watches the joblist in the given interval in seconds.",
                Some(String::from_str("interval")),
            ),
        );
        validarg.push(
            Arg::new(
                "cs",
                "clientstatus",
                "Requests a list of clients connected to the server.",
                None,
            ),
        );
        validarg.push(
            Arg::new("cj", "clearjobs", "Clears the completed jobs from the server.", None),
        );
        validarg.push(
            Arg::new("caj", "cancelalljobs", "Cancels all currently queued jobs.", None),
        );
        validarg.push(
            Arg::new(
                "cn",
                "canceljob",
                "Cancels specified currently queued job.",
                Some(String::from_str("job_id")),
            ),
        );
        validarg.push(Arg::new("mp", "managedpkgs", "Requests list of managed packages.", None));
        validarg.push(
            Arg::new("mk", "managedpkgbuilds", "Requests list of managed packagebuilds.", None),
        );
        validarg.push(
            Arg::new(
                "dp",
                "differencepkgs",
                "Requests difference between packagebuilds and packages.",
                None,
            ),
        );
        validarg.push(
            Arg::new("sys", "viewsyslog", "Requests buildbot system logs from server.", None),
        );
        validarg.push(
            Arg::new(
                "vd",
                "viewdependers",
                "Requests all dependers for specified package.",
                Some(String::from_str("name")),
            ),
        );
        validarg.push(
            Arg::new(
                "vdp",
                "viewdependencies",
                "Shows if dependencies of a package have a pkgbuild / pkg",
                Some(String::from_str("name")),
            ),
        );
        validarg.push(
            Arg::new(
                "rd",
                "rebuilddependers",
                "Rebuild dependers of specified package.",
                Some(String::from_str("name")),
            ),
        );
        validarg.push(
            Arg::new(
                "rbs",
                "releasebuildsol",
                "Submits a branch solution to server. (RELEASEBUILD)",
                Some(String::from_str("sol_file")),
            ),
        );
        validarg.push(
            Arg::new(
                "cbs",
                "crossbuildsol",
                "Submits a branch solution to server. (CROSSBUILD)",
                Some(String::from_str("sol_file")),
            ),
        );
        ArgParser {
            recargs: Vec::new(),
            desc: String::from_str("The AcaciaLinux branch client rewritten in rust."),
            validarg,
        }
    }

    /// The received option/value pairs.
    pub fn funcs(&self) -> (r: Vec<(String, Option<String>)>)
        ensures
            r@.len() == self.recargs@.len(),
            forall|i: int|
                0 <= i < r@.len() ==> (#[trigger] r@[i]).0@ == self.recargs@[i].0@ && r@[i].1
                    == self.recargs@[i].1,
    {
        crate::argparser::clone_pairs(&self.recargs)
    }

    /// Whether an argument is known and complete: complete when it takes
    /// no value or carries one inline as `arg=value`; incomplete when it
    /// needs a value from the next argument; an unknown spelling or an
    /// empty inline value is an error.
    pub fn is_valid(&self, arg: &str) -> (r: Result<bool, String>)
        ensures
            match find_arg(self.validarg@, arg_head(arg@)) {
                None => r matches Err(e) && e@ == "Invalid argument"@,
                Some(i) => {
                    if self.validarg@[i].param is None {
                        r matches Ok(b) && b
                    } else {
                        match first_char_idx(arg@, '=') {
                            Some(k) => {
                                if first_char_idx(arg@.skip(k + 1), '=') is Some {
                                    r matches Ok(b) && !b
                                } else if arg@.skip(k + 1).len() == 0 {
                                    r matches Err(e) && e@ == "Invalid value"@
                                } else {
                                    r matches Ok(b) && b
                                }
                            },
                            None => r matches Ok(b) && !b,
                        }
                    }
                },
            },
    {
        let (head, inline) = match split_once_char(arg, 0x3D) {
            Some((h, t)) => (h, Some(t)),
            None => (String::from_str(arg), None),
        };
        proof {
            crate::pkgbuild::lemma_first_char_range(arg@, '=');
        }
        match self.find_index(head.as_str()) {
            None => Err(String::from_str("Invalid argument")),
            Some(i) => {
                if self.validarg[i].param.is_none() {
                    Ok(true)
                } else {
                    match inline {
                        Some(value) => {
                            match split_once_char(value.as_str(), 0x3D) {
                                Some(_) => Ok(false),
                                None => {
                                    if value.as_str().is_empty() {
                                        Err(String::from_str("Invalid value"))
                                    } else {
                                        Ok(true)
                                    }
                                },
                            }
                        },
                        None => Ok(false),
                    }
                }
            },
        }
    }

    /// Whether the argument's option takes a value.
    pub fn has_value(&self, arg: &str) -> (r: Result<bool, String>)
        ensures
            match find_arg(self.validarg@, arg_head(arg@)) {
                None => r matches Err(e) && e@ == "Invalid argument"@,
                Some(i) => r matches Ok(b) && b == (self.validarg@[i].param is Some),
            },
    {
        let head = match split_once_char(arg, 0x3D) {
            Some((h, _)) => h,
            None => String::from_str(arg),
        };
        match self.find_index(head.as_str()) {
            None => Err(String::from_str("Invalid argument")),
            Some(i) => Ok(self.validarg[i].param.is_some()),
        }
    }

    /// The long spelling of the option the whole argument names.
    pub fn get_arg_long(&self, arg: &str) -> (r: Result<String, String>)
        ensures
            match find_arg(self.validarg@, arg@) {
                None => r matches Err(e) && e@ == "Invalid argument"@,
                Some(i) => r matches Ok(l) && l@ == self.validarg@[i].long@,
            },
    {
        match self.find_index(arg) {
            None => Err(String::from_str("Invalid argument")),
            Some(i) => Ok(self.validarg[i].long.clone()),
        }
    }

    /// The table index a spelling matches.
    fn find_index(&self, head: &str) -> (r: Option<usize>)
        ensures
            match find_arg(self.validarg@, head@) {
                Some(i) => r matches Some(j) && j as int == i && i < self.validarg@.len(),
                None => r is None,
            },
    {
        let ghost all = self.validarg@;
        let mut i: usize = 0;
        proof {
            assert(all.skip(0) =~= all);
        }
        while i < self.validarg.len()
            invariant
                i <= all.len(),
                all == self.validarg@,
                match find_arg(all, head@) {
                    Some(k) => find_arg(all.skip(i as int), head@) matches Some(k2) && k == k2
                        + i,
                    None => find_arg(all.skip(i as int), head@) is None,
                },
            decreases all.len() - i,
        {
            let a = &self.validarg[i];
            proof {
                assert(all.skip(i as int)[0] == all[i as int]);
                assert(all.skip(i as int).drop_first() =~= all.skip(i + 1));
            }
            if str_eq(a.short.as_str(), head) || str_eq(a.long.as_str(), head) {
                return Some(i);
            }
            i = i + 1;
        }
        proof {
            assert(all.skip(all.len() as int).len() == 0);
        }
        None
    }
}

} // verus!
