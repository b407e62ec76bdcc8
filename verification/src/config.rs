//! Startup configuration: the snapshot directory and file name, read from
//! the flag-style argument list handed over at process start.

use vstd::prelude::*;
use vstd::string::StringExecFns;

verus! {

/// The snapshot directory and file name the server was started with.
#[derive(Debug, PartialEq)]
pub struct Config {
    pub dir: String,
    pub dbfilename: String,
}

/// The first index at which `args` holds exactly `flag`.
pub open spec fn find_flag(args: Seq<Seq<char>>, flag: Seq<char>) -> Option<int>
    decreases args.len(),
{
    if args.len() == 0 {
        None
    } else if args[0] == flag {
        Some(0int)
    } else {
        match find_flag(args.subrange(1, args.len() as int), flag) {
            Some(i) => Some(i + 1),
            None => None,
        }
    }
}

/// The argument following the first occurrence of `flag`, or `default`
/// when the flag is absent or stands last.
pub open spec fn spec_flag_value(args: Seq<Seq<char>>, flag: Seq<char>, default: Seq<char>) -> Seq<
    char,
> {
    match find_flag(args, flag) {
        Some(i) => if i + 1 < args.len() {
            args[i + 1]
        } else {
            default
        },
        None => default,
    }
}

/// The position of the first occurrence determines `find_flag`.
proof fn lemma_find_flag_first(args: Seq<Seq<char>>, flag: Seq<char>, i: int)
    requires
        0 <= i < args.len(),
        args[i] == flag,
        forall|j: int| 0 <= j < i ==> args[j] != flag,
    ensures
        find_flag(args, flag) == Some(i),
    decreases args.len(),
{
    if i > 0 {
        lemma_find_flag_first(args.subrange(1, args.len() as int), flag, i - 1);
    }
}

/// When no argument equals `flag`, `find_flag` finds none.
proof fn lemma_find_flag_none(args: Seq<Seq<char>>, flag: Seq<char>)
    requires
        forall|j: int| 0 <= j < args.len() ==> args[j] != flag,
    ensures
        find_flag(args, flag) is None,
    decreases args.len(),
{
    if args.len() > 0 {
        lemma_find_flag_none(args.subrange(1, args.len() as int), flag);
    }
}

/// The argument following the first occurrence of `flag`, or `default`.
fn flag_value(args: &Vec<String>, flag: &str, default: &str) -> (v: String)
    ensures
        v@ == spec_flag_value(args.deep_view(), flag@, default@),
{
    let ghost views = args.deep_view();
    let flag_string = String::from_str(flag);
    let mut i: usize = 0;
    while i < args.len()
        invariant
            i <= args.len(),
            views == args.deep_view(),
            flag_string@ == flag@,
            forall|j: int| 0 <= j < i ==> views[j] != flag@,
        decreases args.len() - i,
    {
        if args[i] == flag_string {
            proof {
                lemma_find_flag_first(views, flag@, i as int);
            }
            if i + 1 < args.len() {
                return args[i + 1].clone();
            } else {
                return String::from_str(default);
            }
        }
        i = i + 1;
    }
    proof {
        lemma_find_flag_none(views, flag@);
    }
    String::from_str(default)
}

impl Config {
    /// Reads the configuration out of the argument list: `--dir` and
    /// `--dbfilename` each take the following argument as their value,
    /// with a built-in default when absent.
    pub fn new(args: Vec<String>) -> (c: Config)
        ensures
            c.dir@ == spec_flag_value(args.deep_view(), "--dir"@, "/tmp/redis-data"@),
            c.dbfilename@ == spec_flag_value(args.deep_view(), "--dbfilename"@, "rdbfile.rdb"@),
    {
        let dir = flag_value(&args, "--dir", "/tmp/redis-data");
        let dbfilename = flag_value(&args, "--dbfilename", "rdbfile.rdb");
        Config { dir, dbfilename }
    }

    /// The path of the snapshot file: directory, separator, file name.
    pub fn rbd(&self) -> (p: String)
        ensures
            p@ == self.dir@ + "/"@ + self.dbfilename@,
    {
        let mut p = self.dir.clone();
        p.append("/");
        p.append(self.dbfilename.as_str());
        p
    }
}

impl Default for Config {
    /// The built-in directory and file name.
    fn default() -> (c: Self)
        ensures
            c.dir@ == "/tmp/redis-data"@,
            c.dbfilename@ == "rdbfile.rdb"@,
    {
        Config {
            dir: String::from_str("/tmp/redis-data"),
            dbfilename: String::from_str("rdbfile.rdb"),
        }
    }
}

} // verus!
