//! Command-line arguments: `-file`/`--file`/`-f <path>`, `-id`/`--id <id>`,
//! `-help`/`--help`/`-h`, and a positional question id.
use vstd::prelude::*;
use crate::text::{chars_of, same_chars, string_of};

verus! {

/// The parsed command line.
#[derive(Debug, Clone)]
pub struct CliArgs {
    /// Whether help was asked for.
    pub help: bool,
    /// Input file path, `testpoint.in` by default.
    pub file_path: String,
    /// The id given with `-id`/`--id` (takes precedence over the positional one).
    pub question_id: Option<String>,
    /// The first positional argument (used only without `-id`).
    pub positional_id: Option<String>,
}

pub struct CliModel {
    pub help: bool,
    pub file_path: Seq<char>,
    pub question_id: Option<Seq<char>>,
    pub positional_id: Option<Seq<char>>,
}

pub open spec fn opt_text(o: Option<String>) -> Option<Seq<char>> {
    match o {
        Some(s) => Some(s@),
        None => None,
    }
}

impl View for CliArgs {
    type V = CliModel;

    open spec fn view(&self) -> CliModel {
        CliModel {
            help: self.help,
            file_path: self.file_path@,
            question_id: opt_text(self.question_id),
            positional_id: opt_text(self.positional_id),
        }
    }
}

/// The kinds of flags.
pub enum FlagKind {
    Help,
    File,
    Id,
}

pub open spec fn default_file() -> Seq<char> {
    seq!['t', 'e', 's', 't', 'p', 'o', 'i', 'n', 't', '.', 'i', 'n']
}

/// What flag, if any, the argument `a` is.
pub open spec fn flag_kind(a: Seq<char>) -> Option<FlagKind> {
    if a == seq!['-', 'h', 'e', 'l', 'p'] || a == seq!['-', '-', 'h', 'e', 'l', 'p'] || a == seq![
        '-',
        'h',
    ] {
        Some(FlagKind::Help)
    } else if a == seq!['-', 'f', 'i', 'l', 'e'] || a == seq!['-', '-', 'f', 'i', 'l', 'e'] || a
        == seq!['-', 'f'] {
        Some(FlagKind::File)
    } else if a == seq!['-', 'i', 'd'] || a == seq!['-', '-', 'i', 'd'] {
        Some(FlagKind::Id)
    } else {
        None
    }
}

pub open spec fn starts_with_dash(a: Seq<char>) -> bool {
    a.len() > 0 && a[0] == '-'
}

pub open spec fn with_help(m: CliModel) -> CliModel {
    CliModel { help: true, file_path: m.file_path, question_id: m.question_id, positional_id: m.positional_id }
}

pub open spec fn with_file(m: CliModel, v: Seq<char>) -> CliModel {
    CliModel { help: m.help, file_path: v, question_id: m.question_id, positional_id: m.positional_id }
}

pub open spec fn with_id(m: CliModel, v: Seq<char>) -> CliModel {
    CliModel { help: m.help, file_path: m.file_path, question_id: Some(v), positional_id: m.positional_id }
}

pub open spec fn with_positional(m: CliModel, v: Seq<char>) -> CliModel {
    CliModel { help: m.help, file_path: m.file_path, question_id: m.question_id, positional_id: Some(v) }
}

/// Reads the arguments from `i` on into `acc`. A help flag sets `help`; a
/// file or id flag takes the next argument as its value (a flag in last
/// position is skipped); the first argument that is no flag and does not start
/// with `-` is the positional id.
pub open spec fn args_from(argv: Seq<Seq<char>>, i: int, acc: CliModel) -> CliModel
    decreases argv.len() - i,
{
    if i < 0 || i >= argv.len() {
        acc
    } else {
        match flag_kind(argv[i]) {
            Some(FlagKind::Help) => args_from(argv, i + 1, with_help(acc)),
            Some(FlagKind::File) => if i + 1 >= argv.len() {
                args_from(argv, i + 1, acc)
            } else {
                args_from(argv, i + 2, with_file(acc, argv[i + 1]))
            },
            Some(FlagKind::Id) => if i + 1 >= argv.len() {
                args_from(argv, i + 1, acc)
            } else {
                args_from(argv, i + 2, with_id(acc, argv[i + 1]))
            },
            None => if !starts_with_dash(argv[i]) && acc.positional_id is None {
                args_from(argv, i + 1, with_positional(acc, argv[i]))
            } else {
                args_from(argv, i + 1, acc)
            },
        }
    }
}

pub open spec fn default_args() -> CliModel {
    CliModel { help: false, file_path: default_file(), question_id: None, positional_id: None }
}

/// The command line `argv` (program name first) parsed.
pub open spec fn spec_parse_args(argv: Seq<Seq<char>>) -> CliModel {
    args_from(argv, 1, default_args())
}

pub open spec fn argv_view(argv: Seq<String>) -> Seq<Seq<char>> {
    argv.map_values(|s: String| s@)
}

fn lit_help() -> (v: Vec<char>) ensures v@ == seq!['-', 'h', 'e', 'l', 'p'] {
    let v = vec!['-', 'h', 'e', 'l', 'p'];
    assert(v@ =~= seq!['-', 'h', 'e', 'l', 'p']);
    v
}

fn lit_help2() -> (v: Vec<char>) ensures v@ == seq!['-', '-', 'h', 'e', 'l', 'p'] {
    let v = vec!['-', '-', 'h', 'e', 'l', 'p'];
    assert(v@ =~= seq!['-', '-', 'h', 'e', 'l', 'p']);
    v
}

fn lit_h() -> (v: Vec<char>) ensures v@ == seq!['-', 'h'] {
    let v = vec!['-', 'h'];
    assert(v@ =~= seq!['-', 'h']);
    v
}

fn lit_file() -> (v: Vec<char>) ensures v@ == seq!['-', 'f', 'i', 'l', 'e'] {
    let v = vec!['-', 'f', 'i', 'l', 'e'];
    assert(v@ =~= seq!['-', 'f', 'i', 'l', 'e']);
    v
}

fn lit_file2() -> (v: Vec<char>) ensures v@ == seq!['-', '-', 'f', 'i', 'l', 'e'] {
    let v = vec!['-', '-', 'f', 'i', 'l', 'e'];
    assert(v@ =~= seq!['-', '-', 'f', 'i', 'l', 'e']);
    v
}

fn lit_f() -> (v: Vec<char>) ensures v@ == seq!['-', 'f'] {
    let v = vec!['-', 'f'];
    assert(v@ =~= seq!['-', 'f']);
    v
}

fn lit_id() -> (v: Vec<char>) ensures v@ == seq!['-', 'i', 'd'] {
    let v = vec!['-', 'i', 'd'];
    assert(v@ =~= seq!['-', 'i', 'd']);
    v
}

fn lit_id2() -> (v: Vec<char>) ensures v@ == seq!['-', '-', 'i', 'd'] {
    let v = vec!['-', '-', 'i', 'd'];
    assert(v@ =~= seq!['-', '-', 'i', 'd']);
    v
}

/// Which flag the argument with characters `a` is.
fn classify(a: &Vec<char>) -> (r: Option<FlagKind>)
    ensures
        r == flag_kind(a@),
{
    if same_chars(a, &lit_help()) || same_chars(a, &lit_help2()) || same_chars(a, &lit_h()) {
        Some(FlagKind::Help)
    } else if same_chars(a, &lit_file()) || same_chars(a, &lit_file2()) || same_chars(a, &lit_f()) {
        Some(FlagKind::File)
    } else if same_chars(a, &lit_id()) || same_chars(a, &lit_id2()) {
        Some(FlagKind::Id)
    } else {
        None
    }
}

/// Whether `arg` is a flag that takes the next argument as its value.
pub fn flag_takes_value(arg: &str) -> (r: bool)
    ensures
        r == (flag_kind(arg@) matches Some(FlagKind::File) || flag_kind(arg@) matches Some(
            FlagKind::Id,
        )),
{
    let a = chars_of(arg);
    match classify(&a) {
        Some(FlagKind::File) | Some(FlagKind::Id) => true,
        _ => false,
    }
}

/// Whether `arg` asks for help.
pub fn is_help(arg: &str) -> (r: bool)
    ensures
        r == (flag_kind(arg@) matches Some(FlagKind::Help)),
{
    let a = chars_of(arg);
    match classify(&a) {
        Some(FlagKind::Help) => true,
        _ => false,
    }
}

/// Parses the command line `argv` (program name first).
pub fn parse_args(argv: Vec<String>) -> (r: CliArgs)
    ensures
        r@ == spec_parse_args(argv_view(argv@)),
{
    let ghost av = argv_view(argv@);
    let mut help = false;
    let mut file_path = string_of(&vec!['t', 'e', 's', 't', 'p', 'o', 'i', 'n', 't', '.', 'i', 'n']);
    assert(file_path@ =~= default_file());
    let mut question_id: Option<String> = None;
    let mut positional_id: Option<String> = None;
    let ghost init = CliArgs { help, file_path, question_id, positional_id }@;
    assert(init == default_args());
    let mut i: usize = 1;
    while i < argv.len()
        invariant
            1 <= i,
            av == argv_view(argv@),
            spec_parse_args(av) == args_from(
                av,
                i as int,
                CliModel {
                    help,
                    file_path: file_path@,
                    question_id: opt_text(question_id),
                    positional_id: opt_text(positional_id),
                },
            ),
        decreases argv.len() - i,
    {
        let a = chars_of(argv[i].as_str());
        assert(a@ == av[i as int]);
        match classify(&a) {
            Some(FlagKind::Help) => {
                help = true;
                i = i + 1;
            },
            Some(kind) => {
                if i + 1 >= argv.len() {
                    i = i + 1;
                } else {
                    let value = argv[i + 1].clone();
                    assert(value@ == av[i + 1]);
                    match kind {
                        FlagKind::File => {
                            file_path = value;
                        },
                        _ => {
                            question_id = Some(value);
                        },
                    }
                    i = i + 2;
                }
            },
            None => {
                let dash = a.len() > 0 && a[0] == '-';
                if !dash && positional_id.is_none() {
                    positional_id = Some(argv[i].clone());
                }
                i = i + 1;
            },
        }
    }
    CliArgs { help, file_path, question_id, positional_id }
}

impl CliArgs {
    /// The question id to load: the `-id` value when there is one, else the
    /// positional one.
    pub fn selected_id(&self) -> (r: Option<String>)
        ensures
            opt_text(r) == match self@.question_id {
                Some(q) => Some(q),
                None => self@.positional_id,
            },
    {
        match &self.question_id {
            Some(q) => Some(q.clone()),
            None => match &self.positional_id {
                Some(p) => Some(p.clone()),
                None => None,
            },
        }
    }
}

proof fn lemma_file_from(argv: Seq<Seq<char>>, i: int, acc: CliModel)
    requires
        0 <= i,
    ensures
        args_from(argv, i, acc).file_path == acc.file_path || exists|k: int|
            i <= k && k + 1 < argv.len() && (flag_kind(argv[k]) matches Some(FlagKind::File))
                && args_from(argv, i, acc).file_path == #[trigger] argv[k + 1],
        (forall|k: int| i <= k < argv.len() ==> !(flag_kind(#[trigger] argv[k]) matches Some(FlagKind::File)))
            ==> args_from(argv, i, acc).file_path == acc.file_path,
    decreases argv.len() - i,
{
    if i < argv.len() {
        match flag_kind(argv[i]) {
            Some(FlagKind::Help) => {
                lemma_file_from(argv, i + 1, with_help(acc));
            },
            Some(FlagKind::File) => {
                if i + 1 >= argv.len() {
                    lemma_file_from(argv, i + 1, acc);
                } else {
                    lemma_file_from(argv, i + 2, with_file(acc, argv[i + 1]));
                }
            },
            Some(FlagKind::Id) => {
                if i + 1 >= argv.len() {
                    lemma_file_from(argv, i + 1, acc);
                } else {
                    lemma_file_from(argv, i + 2, with_id(acc, argv[i + 1]));
                }
            },
            None => {
                if !starts_with_dash(argv[i]) && acc.positional_id is None {
                    lemma_file_from(argv, i + 1, with_positional(acc, argv[i]));
                } else {
                    lemma_file_from(argv, i + 1, acc);
                }
            },
        }
    }
}

/// The input file is `testpoint.in` unless a file flag (`-file`, `--file`,
/// `-f`) is followed by a value, and then it is one of those values; with no
/// file flag at all it is `testpoint.in`.
pub proof fn lemma_file_path(argv: Seq<Seq<char>>)
    ensures
        spec_parse_args(argv).file_path == default_file() || exists|k: int|
            1 <= k && k + 1 < argv.len() && (flag_kind(argv[k]) matches Some(FlagKind::File))
                && spec_parse_args(argv).file_path == #[trigger] argv[k + 1],
        (forall|k: int| 1 <= k < argv.len() ==> !(flag_kind(#[trigger] argv[k]) matches Some(FlagKind::File)))
            ==> spec_parse_args(argv).file_path == default_file(),
{
    lemma_file_from(argv, 1, default_args());
}

/// Position `k` is read as an argument of its own (not as a flag's value)
/// when reading starts at `i`.
pub open spec fn read_as_argument(argv: Seq<Seq<char>>, i: int, k: int) -> bool
    decreases argv.len() - i,
{
    if i < 0 || i >= argv.len() || i > k {
        false
    } else if i == k {
        true
    } else {
        match flag_kind(argv[i]) {
            Some(FlagKind::File) | Some(FlagKind::Id) => if i + 1 < argv.len() {
                read_as_argument(argv, i + 2, k)
            } else {
                read_as_argument(argv, i + 1, k)
            },
            _ => read_as_argument(argv, i + 1, k),
        }
    }
}

proof fn lemma_read_bounds(argv: Seq<Seq<char>>, i: int, k: int)
    requires
        read_as_argument(argv, i, k),
    ensures
        0 <= i <= k < argv.len(),
    decreases argv.len() - i,
{
    if i < k {
        match flag_kind(argv[i]) {
            Some(FlagKind::File) | Some(FlagKind::Id) => if i + 1 < argv.len() {
                lemma_read_bounds(argv, i + 2, k)
            } else {
                lemma_read_bounds(argv, i + 1, k)
            },
            _ => lemma_read_bounds(argv, i + 1, k),
        }
    }
}

proof fn lemma_same_suffix(a: Seq<Seq<char>>, b: Seq<Seq<char>>, i: int, acc: CliModel)
    requires
        0 <= i,
        a.len() == b.len(),
        forall|j: int| i <= j < a.len() ==> a[j] == b[j],
    ensures
        args_from(a, i, acc) == args_from(b, i, acc),
    decreases a.len() - i,
{
    if i < a.len() {
        assert(a[i] == b[i]);
        if i + 1 < a.len() {
            assert(a[i + 1] == b[i + 1]);
        }
        match flag_kind(a[i]) {
            Some(FlagKind::Help) => lemma_same_suffix(a, b, i + 1, with_help(acc)),
            Some(FlagKind::File) => if i + 1 >= a.len() {
                lemma_same_suffix(a, b, i + 1, acc)
            } else {
                lemma_same_suffix(a, b, i + 2, with_file(acc, a[i + 1]))
            },
            Some(FlagKind::Id) => if i + 1 >= a.len() {
                lemma_same_suffix(a, b, i + 1, acc)
            } else {
                lemma_same_suffix(a, b, i + 2, with_id(acc, a[i + 1]))
            },
            None => if !starts_with_dash(a[i]) && acc.positional_id is None {
                lemma_same_suffix(a, b, i + 1, with_positional(acc, a[i]))
            } else {
                lemma_same_suffix(a, b, i + 1, acc)
            },
        }
    }
}

proof fn lemma_alias_from(argv: Seq<Seq<char>>, k: int, alt: Seq<char>, i: int, acc: CliModel)
    requires
        0 <= i,
        read_as_argument(argv, i, k),
        0 <= k < argv.len(),
        flag_kind(argv[k]) is Some,
        flag_kind(alt) == flag_kind(argv[k]),
    ensures
        args_from(argv.update(k, alt), i, acc) == args_from(argv, i, acc),
    decreases argv.len() - i,
{
    lemma_read_bounds(argv, i, k);
    let b = argv.update(k, alt);
    if i == k {
        assert forall|j: int| k < j < argv.len() implies b[j] == argv[j] by {}
        match flag_kind(argv[i]) {
            Some(FlagKind::Help) => lemma_same_suffix(argv, b, i + 1, with_help(acc)),
            Some(FlagKind::File) => if i + 1 >= argv.len() {
                lemma_same_suffix(argv, b, i + 1, acc)
            } else {
                lemma_same_suffix(argv, b, i + 2, with_file(acc, argv[i + 1]))
            },
            Some(FlagKind::Id) => if i + 1 >= argv.len() {
                lemma_same_suffix(argv, b, i + 1, acc)
            } else {
                lemma_same_suffix(argv, b, i + 2, with_id(acc, argv[i + 1]))
            },
            None => {},
        }
    } else {
        assert(b[i] == argv[i]);
        match flag_kind(argv[i]) {
            Some(FlagKind::Help) => lemma_alias_from(argv, k, alt, i + 1, with_help(acc)),
            Some(FlagKind::File) => if i + 1 >= argv.len() {
                lemma_alias_from(argv, k, alt, i + 1, acc)
            } else {
                lemma_read_bounds(argv, i + 2, k);
                assert(b[i + 1] == argv[i + 1]);
                lemma_alias_from(argv, k, alt, i + 2, with_file(acc, argv[i + 1]))
            },
            Some(FlagKind::Id) => if i + 1 >= argv.len() {
                lemma_alias_from(argv, k, alt, i + 1, acc)
            } else {
                lemma_read_bounds(argv, i + 2, k);
                assert(b[i + 1] == argv[i + 1]);
                lemma_alias_from(argv, k, alt, i + 2, with_id(acc, argv[i + 1]))
            },
            None => if !starts_with_dash(argv[i]) && acc.positional_id is None {
                lemma_alias_from(argv, k, alt, i + 1, with_positional(acc, argv[i]))
            } else {
                lemma_alias_from(argv, k, alt, i + 1, acc)
            },
        }
    }
}

/// The spellings of a flag are interchangeable: replacing an argument that is
/// read as a flag by another spelling of the same flag (`-file`/`--file`/`-f`,
/// `-id`/`--id`, `-help`/`--help`/`-h`) parses to the same result.
pub proof fn lemma_flag_spellings(argv: Seq<Seq<char>>, k: int, alt: Seq<char>)
    requires
        read_as_argument(argv, 1, k),
        flag_kind(argv[k]) is Some,
        flag_kind(alt) == flag_kind(argv[k]),
    ensures
        spec_parse_args(argv.update(k, alt)) == spec_parse_args(argv),
{
    lemma_read_bounds(argv, 1, k);
    lemma_alias_from(argv, k, alt, 1, default_args());
}

/// Where reading goes after the argument at `i`: past a flag's value, or to
/// the next argument.
pub open spec fn next_index(argv: Seq<Seq<char>>, i: int) -> int {
    match flag_kind(argv[i]) {
        Some(FlagKind::File) | Some(FlagKind::Id) => if i + 1 < argv.len() {
            i + 2
        } else {
            i + 1
        },
        _ => i + 1,
    }
}

proof fn lemma_read_step(argv: Seq<Seq<char>>, i: int)
    requires
        0 <= i < argv.len(),
    ensures
        read_as_argument(argv, i, i),
        next_index(argv, i) > i,
        !read_as_argument(argv, next_index(argv, i), i),
        forall|k: int|
            k != i ==> #[trigger] read_as_argument(argv, i, k) == read_as_argument(
                argv,
                next_index(argv, i),
                k,
            ),
{
    assert forall|k: int| k != i implies #[trigger] read_as_argument(argv, i, k)
        == read_as_argument(argv, next_index(argv, i), k) by {
        if k < i {
            assert(!read_as_argument(argv, next_index(argv, i), k));
        }
    }
}

pub open spec fn is_help_arg(a: Seq<char>) -> bool {
    flag_kind(a) matches Some(FlagKind::Help)
}

/// The argument at `k` is an id flag followed by a value.
pub open spec fn id_with_value(argv: Seq<Seq<char>>, k: int) -> bool {
    (flag_kind(argv[k]) matches Some(FlagKind::Id)) && k + 1 < argv.len()
}

/// An argument that is no flag and does not start with `-`.
pub open spec fn plain_arg(a: Seq<char>) -> bool {
    flag_kind(a) is None && !starts_with_dash(a)
}

proof fn lemma_help_from(argv: Seq<Seq<char>>, i: int, acc: CliModel)
    requires
        0 <= i,
    ensures
        args_from(argv, i, acc).help == (acc.help || exists|k: int|
            #[trigger] read_as_argument(argv, i, k) && is_help_arg(argv[k])),
    decreases argv.len() - i,
{
    if i < argv.len() {
        lemma_read_step(argv, i);
        let n = next_index(argv, i);
        let acc2 = match flag_kind(argv[i]) {
            Some(FlagKind::Help) => with_help(acc),
            Some(FlagKind::File) => if i + 1 >= argv.len() {
                acc
            } else {
                with_file(acc, argv[i + 1])
            },
            Some(FlagKind::Id) => if i + 1 >= argv.len() {
                acc
            } else {
                with_id(acc, argv[i + 1])
            },
            None => if !starts_with_dash(argv[i]) && acc.positional_id is None {
                with_positional(acc, argv[i])
            } else {
                acc
            },
        };
        assert(args_from(argv, i, acc) == args_from(argv, n, acc2));
        lemma_help_from(argv, n, acc2);
        if exists|k: int| #[trigger] read_as_argument(argv, i, k) && is_help_arg(argv[k]) {
            let k = choose|k: int| #[trigger] read_as_argument(argv, i, k) && is_help_arg(argv[k]);
            if k != i {
                assert(read_as_argument(argv, n, k));
            }
        }
        if exists|k: int| #[trigger] read_as_argument(argv, n, k) && is_help_arg(argv[k]) {
            let k = choose|k: int| #[trigger] read_as_argument(argv, n, k) && is_help_arg(argv[k]);
            assert(k != i);
            assert(read_as_argument(argv, i, k));
        }
    } else {
        assert forall|k: int| !#[trigger] read_as_argument(argv, i, k) by {}
    }
}

/// Help is asked for exactly when a help flag (`-help`, `--help`, `-h`) is
/// read as an argument of its own.
pub proof fn lemma_help(argv: Seq<Seq<char>>)
    ensures
        spec_parse_args(argv).help == exists|k: int|
            #[trigger] read_as_argument(argv, 1, k) && is_help_arg(argv[k]),
{
    lemma_help_from(argv, 1, default_args());
}

proof fn lemma_id_from(argv: Seq<Seq<char>>, i: int, acc: CliModel)
    requires
        0 <= i,
    ensures
        (forall|k: int| #[trigger] read_as_argument(argv, i, k) ==> !id_with_value(argv, k))
            ==> args_from(argv, i, acc).question_id == acc.question_id,
        (exists|k: int| #[trigger] read_as_argument(argv, i, k) && id_with_value(argv, k))
            ==> exists|k: int|
            #[trigger] read_as_argument(argv, i, k) && id_with_value(argv, k)
                && args_from(argv, i, acc).question_id == Some(argv[k + 1]) && forall|j: int|
                k < j && #[trigger] read_as_argument(argv, i, j) ==> !id_with_value(argv, j),
    decreases argv.len() - i,
{
    if i < argv.len() {
        lemma_read_step(argv, i);
        let n = next_index(argv, i);
        let acc2 = match flag_kind(argv[i]) {
            Some(FlagKind::Help) => with_help(acc),
            Some(FlagKind::File) => if i + 1 >= argv.len() {
                acc
            } else {
                with_file(acc, argv[i + 1])
            },
            Some(FlagKind::Id) => if i + 1 >= argv.len() {
                acc
            } else {
                with_id(acc, argv[i + 1])
            },
            None => if !starts_with_dash(argv[i]) && acc.positional_id is None {
                with_positional(acc, argv[i])
            } else {
                acc
            },
        };
        assert(args_from(argv, i, acc) == args_from(argv, n, acc2));
        lemma_id_from(argv, n, acc2);
        let r = args_from(argv, i, acc);
        if exists|k: int| #[trigger] read_as_argument(argv, n, k) && id_with_value(argv, k) {
            let k = choose|k: int|
                #[trigger] read_as_argument(argv, n, k) && id_with_value(argv, k) && r.question_id
                    == Some(argv[k + 1]) && forall|j: int|
                    k < j && #[trigger] read_as_argument(argv, n, j) ==> !id_with_value(argv, j);
            assert(k != i);
            assert(read_as_argument(argv, i, k));
            assert forall|j: int| k < j && #[trigger] read_as_argument(argv, i, j) implies !id_with_value(argv, j) by {
                assert(read_as_argument(argv, n, j));
            }
        } else {
            assert forall|k: int| #[trigger] read_as_argument(argv, i, k) && k != i implies !id_with_value(argv, k) by {
                assert(read_as_argument(argv, n, k));
            }
            if id_with_value(argv, i) {
                assert forall|j: int| i < j && #[trigger] read_as_argument(argv, i, j) implies !id_with_value(argv, j) by {
                    assert(read_as_argument(argv, n, j));
                }
            }
        }
    } else {
        assert forall|k: int| !#[trigger] read_as_argument(argv, i, k) by {}
    }
}

/// An id is set exactly when an id flag (`-id`, `--id`) with a value is read
/// as an argument of its own, and then it is the value of the last such flag.
pub proof fn lemma_question_id(argv: Seq<Seq<char>>)
    ensures
        (forall|k: int| #[trigger] read_as_argument(argv, 1, k) ==> !id_with_value(argv, k))
            ==> spec_parse_args(argv).question_id is None,
        (exists|k: int| #[trigger] read_as_argument(argv, 1, k) && id_with_value(argv, k))
            ==> exists|k: int|
            #[trigger] read_as_argument(argv, 1, k) && id_with_value(argv, k)
                && spec_parse_args(argv).question_id == Some(argv[k + 1]) && forall|j: int|
                k < j && #[trigger] read_as_argument(argv, 1, j) ==> !id_with_value(argv, j),
{
    lemma_id_from(argv, 1, default_args());
}

proof fn lemma_positional_from(argv: Seq<Seq<char>>, i: int, acc: CliModel)
    requires
        0 <= i,
    ensures
        acc.positional_id is Some ==> args_from(argv, i, acc).positional_id == acc.positional_id,
        acc.positional_id is None && (forall|k: int|
            #[trigger] read_as_argument(argv, i, k) ==> !plain_arg(argv[k]))
            ==> args_from(argv, i, acc).positional_id is None,
        acc.positional_id is None ==> forall|k: int|
            #[trigger] read_as_argument(argv, i, k) && plain_arg(argv[k]) && (forall|j: int|
                j < k && #[trigger] read_as_argument(argv, i, j) ==> !plain_arg(argv[j]))
                ==> args_from(argv, i, acc).positional_id == Some(argv[k]),
    decreases argv.len() - i,
{
    if i < argv.len() {
        lemma_read_step(argv, i);
        let n = next_index(argv, i);
        let acc2 = match flag_kind(argv[i]) {
            Some(FlagKind::Help) => with_help(acc),
            Some(FlagKind::File) => if i + 1 >= argv.len() {
                acc
            } else {
                with_file(acc, argv[i + 1])
            },
            Some(FlagKind::Id) => if i + 1 >= argv.len() {
                acc
            } else {
                with_id(acc, argv[i + 1])
            },
            None => if !starts_with_dash(argv[i]) && acc.positional_id is None {
                with_positional(acc, argv[i])
            } else {
                acc
            },
        };
        assert(args_from(argv, i, acc) == args_from(argv, n, acc2));
        lemma_positional_from(argv, n, acc2);
        if acc.positional_id is None {
            if plain_arg(argv[i]) {
                assert(acc2.positional_id == Some(argv[i]));
                assert forall|k: int|
                    #[trigger] read_as_argument(argv, i, k) && plain_arg(argv[k]) && (forall|j: int|
                        j < k && #[trigger] read_as_argument(argv, i, j) ==> !plain_arg(argv[j]))
                    implies args_from(argv, i, acc).positional_id == Some(argv[k]) by {
                    if k != i {
                        assert(read_as_argument(argv, i, i));
                        lemma_read_bounds(argv, i, k);
                    }
                }
            } else {
                assert(acc2.positional_id is None);
                assert forall|k: int|
                    #[trigger] read_as_argument(argv, i, k) && plain_arg(argv[k]) && (forall|j: int|
                        j < k && #[trigger] read_as_argument(argv, i, j) ==> !plain_arg(argv[j]))
                    implies args_from(argv, i, acc).positional_id == Some(argv[k]) by {
                    assert(k != i);
                    assert(read_as_argument(argv, n, k));
                    assert forall|j: int| j < k && #[trigger] read_as_argument(argv, n, j) implies !plain_arg(argv[j]) by {
                        assert(j != i);
                        assert(read_as_argument(argv, i, j));
                    }
                }
                if forall|k: int| #[trigger] read_as_argument(argv, i, k) ==> !plain_arg(argv[k]) {
                    assert forall|k: int| #[trigger] read_as_argument(argv, n, k) implies !plain_arg(argv[k]) by {
                        assert(k != i);
                        assert(read_as_argument(argv, i, k));
                    }
                }
            }
        }
    } else {
        assert forall|k: int| !#[trigger] read_as_argument(argv, i, k) by {}
    }
}

/// The positional id is the first argument read on its own that is no flag
/// and does not start with `-`; there is none when no argument is such.
pub proof fn lemma_positional_id(argv: Seq<Seq<char>>)
    ensures
        (forall|k: int| #[trigger] read_as_argument(argv, 1, k) ==> !plain_arg(argv[k]))
            ==> spec_parse_args(argv).positional_id is None,
        forall|k: int|
            #[trigger] read_as_argument(argv, 1, k) && plain_arg(argv[k]) && (forall|j: int|
                j < k && #[trigger] read_as_argument(argv, 1, j) ==> !plain_arg(argv[j]))
                ==> spec_parse_args(argv).positional_id == Some(argv[k]),
{
    lemma_positional_from(argv, 1, default_args());
}

/// The argument at `k` is a file flag followed by a value.
pub open spec fn file_with_value(argv: Seq<Seq<char>>, k: int) -> bool {
    (flag_kind(argv[k]) matches Some(FlagKind::File)) && k + 1 < argv.len()
}

proof fn lemma_file_from_last(argv: Seq<Seq<char>>, i: int, acc: CliModel)
    requires
        0 <= i,
    ensures
        (forall|k: int| #[trigger] read_as_argument(argv, i, k) ==> !file_with_value(argv, k))
            ==> args_from(argv, i, acc).file_path == acc.file_path,
        (exists|k: int| #[trigger] read_as_argument(argv, i, k) && file_with_value(argv, k))
            ==> exists|k: int|
            #[trigger] read_as_argument(argv, i, k) && file_with_value(argv, k)
                && args_from(argv, i, acc).file_path == argv[k + 1] && forall|j: int|
                k < j && #[trigger] read_as_argument(argv, i, j) ==> !file_with_value(argv, j),
    decreases argv.len() - i,
{
    if i < argv.len() {
        lemma_read_step(argv, i);
        let n = next_index(argv, i);
        let acc2 = match flag_kind(argv[i]) {
            Some(FlagKind::Help) => with_help(acc),
            Some(FlagKind::File) => if i + 1 >= argv.len() {
                acc
            } else {
                with_file(acc, argv[i + 1])
            },
            Some(FlagKind::Id) => if i + 1 >= argv.len() {
                acc
            } else {
                with_id(acc, argv[i + 1])
            },
            None => if !starts_with_dash(argv[i]) && acc.positional_id is None {
                with_positional(acc, argv[i])
            } else {
                acc
            },
        };
        assert(args_from(argv, i, acc) == args_from(argv, n, acc2));
        lemma_file_from_last(argv, n, acc2);
        let r = args_from(argv, i, acc);
        if exists|k: int| #[trigger] read_as_argument(argv, n, k) && file_with_value(argv, k) {
            let k = choose|k: int|
                #[trigger] read_as_argument(argv, n, k) && file_with_value(argv, k) && r.file_path
                    == argv[k + 1] && forall|j: int|
                    k < j && #[trigger] read_as_argument(argv, n, j) ==> !file_with_value(argv, j);
            assert(k != i);
            assert(read_as_argument(argv, i, k));
            assert forall|j: int| k < j && #[trigger] read_as_argument(argv, i, j) implies !file_with_value(argv, j) by {
                assert(read_as_argument(argv, n, j));
            }
        } else {
            assert forall|k: int| #[trigger] read_as_argument(argv, i, k) && k != i implies !file_with_value(argv, k) by {
                assert(read_as_argument(argv, n, k));
            }
            if file_with_value(argv, i) {
                assert forall|j: int| i < j && #[trigger] read_as_argument(argv, i, j) implies !file_with_value(argv, j) by {
                    assert(read_as_argument(argv, n, j));
                }
            }
        }
    } else {
        assert forall|k: int| !#[trigger] read_as_argument(argv, i, k) by {}
    }
}

/// The input file is the value of the last file flag (`-file`, `--file`, `-f`)
/// that is read as an argument of its own and has a value, whatever comes
/// before it; with no such flag it is `testpoint.in`.
pub proof fn lemma_last_file_flag(argv: Seq<Seq<char>>)
    ensures
        (forall|k: int| #[trigger] read_as_argument(argv, 1, k) ==> !file_with_value(argv, k))
            ==> spec_parse_args(argv).file_path == default_file(),
        forall|k: int|
            #[trigger] read_as_argument(argv, 1, k) && file_with_value(argv, k) && (forall|j: int|
                k < j && #[trigger] read_as_argument(argv, 1, j) ==> !file_with_value(argv, j))
                ==> spec_parse_args(argv).file_path == argv[k + 1],
{
    lemma_file_from_last(argv, 1, default_args());
    assert forall|k: int|
        #[trigger] read_as_argument(argv, 1, k) && file_with_value(argv, k) && (forall|j: int|
            k < j && #[trigger] read_as_argument(argv, 1, j) ==> !file_with_value(argv, j))
        implies spec_parse_args(argv).file_path == argv[k + 1] by {
        let m = choose|m: int|
            #[trigger] read_as_argument(argv, 1, m) && file_with_value(argv, m)
                && spec_parse_args(argv).file_path == argv[m + 1] && forall|j: int|
                m < j && #[trigger] read_as_argument(argv, 1, j) ==> !file_with_value(argv, j);
        if m < k {
            assert(!file_with_value(argv, k));
        } else if k < m {
            assert(!file_with_value(argv, m));
        }
    }
}

} // verus!
