//! Command-line arguments: the expression to evaluate and the optional
//! output file.
use vstd::prelude::*;

verus! {

/// The meaning of `args[i..]`, given what earlier arguments chose: the last
/// argument that does not start with `-` is the expression, and the argument
/// after the last `-o` / `--output` is the output file.
pub open spec fn args_from(
    args: Seq<Seq<char>>,
    i: int,
    expr: Option<Seq<char>>,
    file: Option<Seq<char>>,
) -> (Option<Seq<char>>, Option<Seq<char>>)
    decreases args.len() - i,
{
    if i < 0 || i >= args.len() {
        (expr, file)
    } else if args[i] == "-o"@ || args[i] == "--output"@ {
        if i + 1 < args.len() {
            args_from(args, i + 2, expr, Some(args[i + 1]))
        } else {
            (expr, file)
        }
    } else if !(args[i].len() > 0 && args[i][0] == '-') {
        args_from(args, i + 1, Some(args[i]), file)
    } else {
        args_from(args, i + 1, expr, file)
    }
}

/// The views of a sequence of strings.
pub open spec fn views(args: Seq<String>) -> Seq<Seq<char>> {
    args.map_values(|s: String| s@)
}

/// The view of an optional string.
pub open spec fn opt_view(o: Option<String>) -> Option<Seq<char>> {
    match o {
        Some(s) => Some(s@),
        None => None,
    }
}

proof fn lemma_plain_from(
    args: Seq<Seq<char>>,
    i: int,
    expr: Option<Seq<char>>,
    file: Option<Seq<char>>,
)
    requires
        0 <= i <= args.len(),
        forall|k: int| i <= k < args.len() ==> !(#[trigger] args[k].len() > 0 && args[k][0] == '-'),
    ensures
        args_from(args, i, expr, file) == (
            if i < args.len() {
                Some(args.last())
            } else {
                expr
            },
            file,
        ),
    decreases args.len() - i,
{
    reveal_strlit("-o");
    reveal_strlit("--output");
    if i < args.len() {
        assert(!(args[i].len() > 0 && args[i][0] == '-'));
        assert(args[i] != "-o"@ && args[i] != "--output"@) by {
            if args[i] == "-o"@ || args[i] == "--output"@ {
                assert(args[i][0] == '-');
            }
        }
        lemma_plain_from(args, i + 1, Some(args[i]), file);
    }
}

/// Arguments that do not start with `-` are expressions, and the last one is
/// evaluated; with no `-o` or `--output`, there is no output file.
pub proof fn lemma_plain_arguments(args: Seq<Seq<char>>)
    requires
        forall|k: int| 0 <= k < args.len() ==> !(#[trigger] args[k].len() > 0 && args[k][0] == '-'),
    ensures
        args_from(args, 0, None, None) == (
            if args.len() > 0 {
                Some(args.last())
            } else {
                None
            },
            None::<Seq<char>>,
        ),
{
    lemma_plain_from(args, 0, None, None);
}

proof fn lemma_flag_after_plain(
    args: Seq<Seq<char>>,
    flag: Seq<char>,
    f: Seq<char>,
    i: int,
    expr: Option<Seq<char>>,
    file: Option<Seq<char>>,
)
    requires
        0 <= i <= args.len(),
        flag == "-o"@ || flag == "--output"@,
        forall|k: int| i <= k < args.len() ==> !(#[trigger] args[k].len() > 0 && args[k][0] == '-'),
    ensures
        args_from(args + seq![flag, f], i, expr, file) == (
            if i < args.len() {
                Some(args.last())
            } else {
                expr
            },
            Some(f),
        ),
    decreases args.len() - i,
{
    reveal_strlit("-o");
    reveal_strlit("--output");
    let all = args + seq![flag, f];
    if i < args.len() {
        assert(all[i] == args[i]);
        assert(!(args[i].len() > 0 && args[i][0] == '-'));
        assert(args[i] != "-o"@ && args[i] != "--output"@) by {
            if args[i] == "-o"@ || args[i] == "--output"@ {
                assert(args[i][0] == '-');
            }
        }
        lemma_flag_after_plain(args, flag, f, i + 1, Some(args[i]), file);
    } else {
        assert(all[i] == flag);
        assert(all[i + 1] == f);
        assert(all.len() == i + 2);
        assert(args_from(all, i + 2, expr, Some(f)) == (expr, Some(f)));
        assert(args_from(all, i, expr, file) == args_from(all, i + 2, expr, Some(f)));
    }
}

/// `-o f` or `--output f` names `f` as the output file, whatever `f` holds;
/// the arguments before it that do not start with `-` are expressions, and
/// the last of them is evaluated.
pub proof fn lemma_output_flag(args: Seq<Seq<char>>, flag: Seq<char>, f: Seq<char>)
    requires
        flag == "-o"@ || flag == "--output"@,
        forall|k: int| 0 <= k < args.len() ==> !(#[trigger] args[k].len() > 0 && args[k][0] == '-'),
    ensures
        args_from(args + seq![flag, f], 0, None, None) == (
            if args.len() > 0 {
                Some(args.last())
            } else {
                None
            },
            Some(f),
        ),
{
    lemma_flag_after_plain(args, flag, f, 0, None, None);
}

/// `s` and `lit` hold the same characters.
pub(crate) fn same_text(s: &str, lit: &str) -> (r: bool)
    ensures
        r == (s@ == lit@),
{
    let n = s.unicode_len();
    if n != lit.unicode_len() {
        return false;
    }
    let mut i: usize = 0;
    while i < n
        invariant
            n == s@.len(),
            n == lit@.len(),
            i <= n,
            s@.take(i as int) == lit@.take(i as int),
        decreases n - i,
    {
        if s.get_char(i) != lit.get_char(i) {
            return false;
        }
        assert(s@.take(i + 1) == s@.take(i as int).push(s@[i as int]));
        assert(lit@.take(i + 1) == lit@.take(i as int).push(lit@[i as int]));
        i = i + 1;
    }
    assert(s@ == s@.take(n as int));
    assert(lit@ == lit@.take(n as int));
    true
}

/// Splits the arguments (without the program name) into the expression to
/// evaluate and the file named by `-o` / `--output`. Other arguments that
/// start with `-` are ignored; a later expression replaces an earlier one.
pub fn parse_args(args: &[String]) -> (r: (Option<String>, Option<String>))
    ensures
        (opt_view(r.0), opt_view(r.1)) == args_from(views(args@), 0, None, None),
{
    let mut expr: Option<String> = None;
    let mut file: Option<String> = None;
    let mut i: usize = 0;
    while i < args.len()
        invariant
            i <= args.len(),
            args_from(views(args@), i as int, opt_view(expr), opt_view(file)) == args_from(
                views(args@),
                0,
                None,
                None,
            ),
        decreases args.len() - i,
    {
        let a: &str = args[i].as_str();
        if same_text(a, "-o") || same_text(a, "--output") {
            if i + 1 < args.len() {
                file = Some(args[i + 1].clone());
                i = i + 2;
            } else {
                i = args.len();
            }
        } else {
            if !(a.unicode_len() > 0 && a.get_char(0) == '-') {
                expr = Some(args[i].clone());
            }
            i = i + 1;
        }
    }
    (expr, file)
}

} // verus!
