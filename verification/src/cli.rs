//! Command-line decisions: the subcommand, the options, and which files of
//! a folder are capture files.

use vstd::prelude::*;
use crate::model::{ConnectionsFile, FileView, file_views};
use crate::order::str_views;
use crate::text::{chars_equal, chars_of, parse_u64, parsed_u64};

verus! {

/// Whether `a` holds the text `b`.
pub fn str_is(a: &String, b: &str) -> (r: bool)
    ensures
        r == (a@ == b@),
{
    let x = chars_of(a.as_str());
    let y = chars_of(b);
    chars_equal(&x, &y)
}

/// Whether some argument is exactly `flag`.
pub fn has_flag(args: &Vec<String>, flag: &str) -> (r: bool)
    ensures
        r == str_views(args@).contains(flag@),
{
    let mut i: usize = 0;
    while i < args.len()
        invariant
            i <= args@.len(),
            forall|m: int| 0 <= m < i ==> #[trigger] str_views(args@)[m] != flag@,
        decreases args@.len() - i,
    {
        if str_is(&args[i], flag) {
            assert(str_views(args@)[i as int] == flag@);
            return true;
        }
        i = i + 1;
    }
    false
}

/// The argument right after the first occurrence of `name` that has one
/// after it, as the first pair of `args.windows(2)` that starts with `name`.
pub open spec fn option_value(args: Seq<Seq<char>>, name: Seq<char>) -> Option<Seq<char>>
    decreases args.len(),
{
    if args.len() < 2 {
        None
    } else if args[0] == name {
        Some(args[1])
    } else {
        option_value(args.drop_first(), name)
    }
}

/// The value given to option `name`, if any.
pub fn find_option<'a>(args: &'a Vec<String>, name: &str) -> (r: Option<&'a String>)
    ensures
        match option_value(str_views(args@), name@) {
            Some(v) => r matches Some(s) && s@ == v,
            None => r is None,
        },
{
    let ghost vs = str_views(args@);
    let mut i: usize = 0;
    assert(vs.skip(0) =~= vs);
    while i < args.len() && i + 1 < args.len()
        invariant
            i <= args@.len(),
            vs == str_views(args@),
            option_value(vs, name@) == option_value(vs.skip(i as int), name@),
        decreases args@.len() - i,
    {
        assert(vs.skip(i as int).drop_first() =~= vs.skip(i + 1));
        assert(vs.skip(i as int)[0] == args@[i as int]@);
        assert(vs.skip(i as int)[1] == args@[i + 1]@);
        if str_is(&args[i], name) {
            return Some(&args[i + 1]);
        }
        i = i + 1;
    }
    None
}

/// The subcommand.
pub enum Command {
    Help,
    Capture,
    Graph,
    Run,
    Unknown(String),
}

pub enum CommandView {
    Help,
    Capture,
    Graph,
    Run,
    Unknown(Seq<char>),
}

impl View for Command {
    type V = CommandView;

    open spec fn view(&self) -> CommandView {
        match self {
            Command::Help => CommandView::Help,
            Command::Capture => CommandView::Capture,
            Command::Graph => CommandView::Graph,
            Command::Run => CommandView::Run,
            Command::Unknown(s) => CommandView::Unknown(s@),
        }
    }
}

/// Help when there is no subcommand or `--help`/`-h` is given; otherwise the
/// subcommand named by the first argument after the program name.
pub open spec fn command_of(args: Seq<Seq<char>>) -> CommandView {
    if args.len() < 2 || args.contains("--help"@) || args.contains("-h"@) {
        CommandView::Help
    } else if args[1] == "capture"@ {
        CommandView::Capture
    } else if args[1] == "graph"@ {
        CommandView::Graph
    } else if args[1] == "run"@ {
        CommandView::Run
    } else {
        CommandView::Unknown(args[1])
    }
}

/// Decides the subcommand from the arguments (program name first).
pub fn parse_command(args: &Vec<String>) -> (c: Command)
    ensures
        c@ == command_of(str_views(args@)),
{
    if args.len() < 2 || has_flag(args, "--help") || has_flag(args, "-h") {
        return Command::Help;
    }
    let sub = &args[1];
    assert(str_views(args@)[1] == sub@);
    if str_is(sub, "capture") {
        Command::Capture
    } else if str_is(sub, "graph") {
        Command::Graph
    } else if str_is(sub, "run") {
        Command::Run
    } else {
        Command::Unknown(sub.clone())
    }
}

/// The options shared by the subcommands.
pub struct CliOptions {
    pub trim_external: bool,
    pub folder: String,
    pub output_dir: String,
    pub watch: bool,
    pub interval_secs: u64,
}

/// `--folder DIR`, or `.`.
pub open spec fn folder_of(args: Seq<Seq<char>>) -> Seq<char> {
    match option_value(args, "--folder"@) {
        Some(v) => v,
        None => "."@,
    }
}

/// `--output-dir DIR`, or the folder.
pub open spec fn output_dir_of(args: Seq<Seq<char>>) -> Seq<char> {
    match option_value(args, "--output-dir"@) {
        Some(v) => v,
        None => folder_of(args),
    }
}

/// `--interval N`, or 2 when it is missing or not a number.
pub open spec fn interval_of(args: Seq<Seq<char>>) -> u64 {
    match option_value(args, "--interval"@) {
        Some(v) => match parsed_u64(v) {
            Some(n) => n,
            None => 2,
        },
        None => 2,
    }
}

/// Reads the options from the arguments (program name first).
pub fn parse_options(args: &Vec<String>) -> (o: CliOptions)
    ensures
        o.trim_external == str_views(args@).contains("--trim-external"@),
        o.watch == str_views(args@).contains("--watch"@),
        o.folder@ == folder_of(str_views(args@)),
        o.output_dir@ == output_dir_of(str_views(args@)),
        o.interval_secs == interval_of(str_views(args@)),
{
    let trim_external = has_flag(args, "--trim-external");
    let watch = has_flag(args, "--watch");
    let folder = match find_option(args, "--folder") {
        Some(v) => v.clone(),
        None => ".".to_owned(),
    };
    let output_dir = match find_option(args, "--output-dir") {
        Some(v) => v.clone(),
        None => folder.clone(),
    };
    let interval_secs = match find_option(args, "--interval") {
        Some(v) => match parse_u64(v.as_str()) {
            Some(n) => n,
            None => 2,
        },
        None => 2,
    };
    CliOptions { trim_external, folder, output_dir, watch, interval_secs }
}

/// The index of the last `.` in `s`.
pub open spec fn last_dot(s: Seq<char>) -> Option<int>
    decreases s.len(),
{
    if s.len() == 0 {
        None
    } else if s.last() == '.' {
        Some(s.len() - 1)
    } else {
        last_dot(s.drop_last())
    }
}

/// The extension of a file name, as `Path::extension` gives it: what
/// follows the last `.`, unless that `.` starts the name or the name is `..`.
pub open spec fn file_extension(name: Seq<char>) -> Option<Seq<char>> {
    if name == seq!['.', '.'] {
        None
    } else {
        match last_dot(name) {
            Some(i) => if i > 0 {
                Some(name.skip(i + 1))
            } else {
                None
            },
            None => None,
        }
    }
}

/// A capture file: a `.json` file other than the graph itself.
pub open spec fn is_capture_file(name: Seq<char>) -> bool {
    file_extension(name) == Some(seq!['j', 's', 'o', 'n']) && name != seq![
        'g',
        'r',
        'a',
        'p',
        'h',
        '.',
        'j',
        's',
        'o',
        'n',
    ]
}

/// Whether the file named `name` is one of the capture files to read.
pub fn is_capture_file_name(name: &str) -> (r: bool)
    ensures
        r == is_capture_file(name@),
{
    let cs = chars_of(name);
    let dots = vec!['.', '.'];
    let graph = vec!['g', 'r', 'a', 'p', 'h', '.', 'j', 's', 'o', 'n'];
    let json = vec!['j', 's', 'o', 'n'];
    assert(dots@ =~= seq!['.', '.']);
    assert(graph@ =~= seq!['g', 'r', 'a', 'p', 'h', '.', 'j', 's', 'o', 'n']);
    assert(json@ =~= seq!['j', 's', 'o', 'n']);
    if chars_equal(&cs, &dots) {
        return false;
    }
    let mut i: usize = cs.len();
    assert(cs@.take(i as int) =~= cs@);
    while i > 0 && cs[i - 1] != '.'
        invariant
            i <= cs@.len(),
            cs@ == name@,
            last_dot(cs@) == last_dot(cs@.take(i as int)),
        decreases i,
    {
        assert(cs@.take(i as int).drop_last() =~= cs@.take(i - 1));
        i = i - 1;
    }
    if i <= 1 {
        if i == 1 {
            assert(cs@.take(1).last() == '.');
        }
        return false;
    }
    assert(cs@.take(i as int).last() == '.');
    assert(last_dot(cs@) == Some(i - 1));
    let mut ext: Vec<char> = Vec::new();
    let mut k: usize = i;
    while k < cs.len()
        invariant
            i <= k <= cs@.len(),
            ext@ == cs@.subrange(i as int, k as int),
        decreases cs@.len() - k,
    {
        ext.push(cs[k]);
        k = k + 1;
    }
    assert(ext@ =~= cs@.skip(i as int));
    chars_equal(&ext, &json) && !chars_equal(&cs, &graph)
}

/// An entry of a folder: the file's name, and what parsing it as a capture
/// gave (`None` where it was not read or did not parse).
pub struct FolderEntry {
    pub name: String,
    pub contents: Option<ConnectionsFile>,
}

/// A folder entry as a value: its name and the parsed capture, if any.
pub type EntryView = (Seq<char>, Option<FileView>);

impl View for FolderEntry {
    type V = EntryView;

    open spec fn view(&self) -> EntryView {
        (
            self.name@,
            match self.contents {
                Some(f) => Some(f@),
                None => None,
            },
        )
    }
}

/// The views of a sequence of folder entries.
pub open spec fn entry_views(v: Seq<FolderEntry>) -> Seq<EntryView> {
    v.map_values(|e: FolderEntry| e@)
}

/// Whether an entry is read into the graph: a capture file by its name that
/// parsed.
pub open spec fn entry_read(e: EntryView) -> bool {
    is_capture_file(e.0) && e.1 is Some
}

/// The captures that the entries give, in entry order.
pub open spec fn read_files(es: Seq<EntryView>) -> Seq<FileView> {
    es.filter(|e: EntryView| entry_read(e)).map_values(|e: EntryView| e.1->0)
}

/// Keeps the captures of the entries that are capture files by name and
/// parsed, in entry order; every other entry is passed over.
pub fn capture_files(entries: Vec<FolderEntry>) -> (files: Vec<ConnectionsFile>)
    ensures
        file_views(files@) == read_files(entry_views(entries@)),
{
    let ghost es = entry_views(entries@);
    let ghost p = |e: EntryView| entry_read(e);
    let mut rest = entries;
    let mut files: Vec<ConnectionsFile> = Vec::new();
    let mut i: usize = 0;
    let n = rest.len();
    proof {
        reveal(Seq::filter);
        assert(es.take(0).filter(p) =~= Seq::<EntryView>::empty());
        assert(file_views(files@) =~= read_files(es.take(0)));
    }
    while rest.len() > 0
        invariant
            i + rest@.len() == n,
            n == es.len(),
            entry_views(rest@) == es.skip(i as int),
            file_views(files@) == read_files(es.take(i as int)),
        decreases rest@.len(),
    {
        let ghost r0 = rest@;
        let e = rest.remove(0);
        proof {
            assert(entry_views(r0)[0] == e@);
            assert(es.skip(i as int)[0] == es[i as int]);
        }
        let ghost before = files@;
        let read = match &e.contents {
            Some(_) => is_capture_file_name(e.name.as_str()),
            None => false,
        };
        if read {
            match e.contents {
                Some(f) => {
                    files.push(f);
                },
                None => {},
            }
        }
        proof {
            reveal(Seq::filter);
            assert(es.take(i + 1).drop_last() =~= es.take(i as int));
            assert(es[i as int] == e@);
            assert(es.take(i + 1).last() == e@);
            if entry_read(e@) {
                assert(file_views(files@) =~= file_views(before).push(e@.1->0));
            } else {
                assert(files@ == before);
            }
            assert forall|k: int| 0 <= k < rest@.len() implies #[trigger] entry_views(rest@)[k]
                == es.skip(i + 1)[k] by {
                assert(rest@[k] == r0[k + 1]);
                assert(entry_views(r0)[k + 1] == es.skip(i as int)[k + 1]);
            }
            assert(entry_views(rest@) =~= es.skip(i + 1));
        }
        i = i + 1;
    }
    assert(es.take(i as int) =~= es);
    files
}

/// Whether an argument starts with `--`.
pub open spec fn is_long_flag(a: Seq<char>) -> bool {
    a.len() >= 2 && a[0] == '-' && a[1] == '-'
}

/// The first argument of `args` that does not start with `--`.
pub open spec fn first_positional(args: Seq<Seq<char>>) -> Option<Seq<char>>
    decreases args.len(),
{
    if args.len() == 0 {
        None
    } else if !is_long_flag(args[0]) {
        Some(args[0])
    } else {
        first_positional(args.drop_first())
    }
}

/// The first argument after the program name that does not start with `--`,
/// or `.`.
pub open spec fn positional_folder_of(args: Seq<Seq<char>>) -> Seq<char> {
    if args.len() == 0 {
        "."@
    } else {
        match first_positional(args.skip(1)) {
            Some(v) => v,
            None => "."@,
        }
    }
}

/// Whether `a` starts with `--`.
fn starts_with_dashes(a: &String) -> (r: bool)
    ensures
        r == is_long_flag(a@),
{
    let cs = chars_of(a.as_str());
    cs.len() >= 2 && cs[0] == '-' && cs[1] == '-'
}

/// The folder given as the first argument after the program name that does
/// not start with `--`, or `.`.
pub fn positional_folder(args: &Vec<String>) -> (f: String)
    ensures
        f@ == positional_folder_of(str_views(args@)),
{
    let ghost vs = str_views(args@);
    if args.len() == 0 {
        return ".".to_owned();
    }
    let mut i: usize = 1;
    while i < args.len()
        invariant
            1 <= i <= args@.len(),
            vs == str_views(args@),
            first_positional(vs.skip(1)) == first_positional(vs.skip(i as int)),
        decreases args@.len() - i,
    {
        assert(vs.skip(i as int)[0] == args@[i as int]@);
        if !starts_with_dashes(&args[i]) {
            return args[i].clone();
        }
        assert(vs.skip(i as int).drop_first() =~= vs.skip(i + 1));
        i = i + 1;
    }
    assert(vs.skip(i as int) =~= Seq::<Seq<char>>::empty());
    ".".to_owned()
}

/// Without `--help` or `-h`, and with a subcommand given, the subcommand is
/// the first argument after the program name and nothing else: `capture`,
/// `graph` and `run` are recognised there, whatever options follow, and any
/// other word there is reported as unknown.
pub proof fn law_subcommand_is_first_argument(args: Seq<Seq<char>>)
    requires
        args.len() >= 2,
        !args.contains("--help"@),
        !args.contains("-h"@),
    ensures
        (command_of(args) is Capture) == (args[1] == "capture"@),
        (command_of(args) is Graph) == (args[1] == "graph"@),
        (command_of(args) is Run) == (args[1] == "run"@),
        !(command_of(args) is Help),
        command_of(args) matches CommandView::Unknown(w) ==> w == args[1],
{
    reveal_strlit("capture");
    reveal_strlit("graph");
    reveal_strlit("run");
    assert("capture"@[0] != "graph"@[0] && "capture"@[0] != "run"@[0] && "graph"@[0] != "run"@[0]);
}

/// Options after the subcommand never change it: appending arguments other
/// than `--help` and `-h` keeps the subcommand that was chosen.
pub proof fn law_options_keep_subcommand(args: Seq<Seq<char>>, more: Seq<Seq<char>>)
    requires
        args.len() >= 2,
        !more.contains("--help"@),
        !more.contains("-h"@),
    ensures
        command_of(args + more) == command_of(args),
{
    let all = args + more;
    assert(all[1] == args[1]);
    assert(all.contains("--help"@) == (args.contains("--help"@) || more.contains("--help"@))) by {
        if all.contains("--help"@) {
            let k = choose|k: int| 0 <= k < all.len() && all[k] == "--help"@;
            if k >= args.len() {
                assert(more[k - args.len()] == "--help"@);
            } else {
                assert(args[k] == "--help"@);
            }
        }
        if args.contains("--help"@) {
            let k = choose|k: int| 0 <= k < args.len() && args[k] == "--help"@;
            assert(all[k] == "--help"@);
        }
    }
    assert(all.contains("-h"@) == (args.contains("-h"@) || more.contains("-h"@))) by {
        if all.contains("-h"@) {
            let k = choose|k: int| 0 <= k < all.len() && all[k] == "-h"@;
            if k >= args.len() {
                assert(more[k - args.len()] == "-h"@);
            } else {
                assert(args[k] == "-h"@);
            }
        }
        if args.contains("-h"@) {
            let k = choose|k: int| 0 <= k < args.len() && args[k] == "-h"@;
            assert(all[k] == "-h"@);
        }
    }
}

/// `--help` or `-h` anywhere asks for help, as does a command line with no
/// subcommand.
pub proof fn law_help_requests(args: Seq<Seq<char>>)
    ensures
        args.contains("--help"@) || args.contains("-h"@) || args.len() < 2 ==> command_of(args)
            is Help,
{
}

} // verus!
