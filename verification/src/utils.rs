//! Where the benchmarked application and the outputs stand: splitting the
//! command line, resolving the application's path, naming output files.

use vstd::prelude::*;
use vstd::string::*;

use crate::error::BenchError;
use crate::text::{
    chars_of, ends_with, find_char, index_of, join_with, lemma_index_of, lemma_join_split,
    lemma_split_nonempty, lemma_split_pieces_lack_separator, split_bounds, split_on,
};

verus! {

/// Appends one character to `s` (`String::push`).
#[verifier::external_body]
fn push_char(s: &mut String, c: char)
    ensures
        final(s)@ == old(s)@.push(c),
{
    s.push(c)
}

/// The texts of the strings.
pub open spec fn strings_view(v: Seq<String>) -> Seq<Seq<char>> {
    v.map_values(|x: String| x@)
}

/// The pieces of `s` between occurrences of `sep`, as owned strings
/// (`s.split(sep)` collected).
pub fn split_string(s: &str, sep: char) -> (v: Vec<String>)
    ensures
        strings_view(v@) == split_on(s@, sep),
{
    let chars = chars_of(s);
    let bounds = split_bounds(&chars, sep);
    let ghost pieces = split_on(s@, sep);
    let mut v: Vec<String> = Vec::new();
    let n = bounds.len();
    let mut k: usize = 0;
    while k < n
        invariant
            chars@ == s@,
            pieces == split_on(s@, sep),
            n == bounds@.len(),
            bounds@.len() == pieces.len(),
            forall|j: int|
                0 <= j < bounds@.len() ==> (#[trigger] bounds@[j]).0 <= bounds@[j].1
                    <= chars@.len() && chars@.subrange(bounds@[j].0 as int, bounds@[j].1 as int)
                    == pieces[j],
            k <= n,
            strings_view(v@) == pieces.take(k as int),
        decreases n - k,
    {
        let (lo, hi) = bounds[k];
        let sub = s.substring_char(lo, hi);
        let piece = sub.to_owned();
        assert(piece@ == pieces[k as int]);
        let ghost old_v = v@;
        v.push(piece);
        assert(v@ == old_v.push(piece));
        assert(strings_view(v@) =~= strings_view(old_v).push(piece@));
        assert(strings_view(v@) =~= pieces.take(k + 1));
        k = k + 1;
    }
    assert(pieces.take(n as int) =~= pieces);
    v
}

/// The application of a command line: its first space-separated piece.
pub open spec fn command_program(app: Seq<char>) -> Seq<char> {
    split_on(app, ' ')[0]
}

/// The parameters of a command line: its space-separated pieces after the
/// first.
pub open spec fn command_params(app: Seq<char>) -> Seq<Seq<char>> {
    split_on(app, ' ').drop_first()
}

/// Splits a command line at its spaces into the application and its
/// parameters.
pub fn split_command(app: &str) -> (r: (String, Vec<String>))
    ensures
        r.0@ == command_program(app@),
        strings_view(r.1@) == command_params(app@),
{
    let parts = split_string(app, ' ');
    proof {
        lemma_split_nonempty(app@, ' ');
    }
    let ghost pieces = split_on(app@, ' ');
    assert(parts@[0]@ == strings_view(parts@)[0]);
    let program = parts[0].clone();
    let mut params: Vec<String> = Vec::new();
    let n = parts.len();
    let mut k: usize = 1;
    while k < n
        invariant
            n == parts@.len(),
            pieces == split_on(app@, ' '),
            strings_view(parts@) == pieces,
            1 <= k <= n,
            strings_view(params@) == pieces.subrange(1, k as int),
        decreases n - k,
    {
        let p = parts[k].clone();
        assert(p@ == pieces[k as int]);
        let ghost old_params = params@;
        params.push(p);
        assert(params@ == old_params.push(p));
        assert(strings_view(params@) =~= strings_view(old_params).push(p@));
        assert(strings_view(params@) =~= pieces.subrange(1, k + 1));
        k = k + 1;
    }
    assert(pieces.subrange(1, n as int) =~= pieces.drop_first());
    (program, params)
}

/// Law: the application and its parameters, joined again by spaces, give
/// back the command line.
pub proof fn lemma_command_rejoins(app: Seq<char>)
    ensures
        join_with(seq![command_program(app)] + command_params(app), ' ') == app,
{
    lemma_split_nonempty(app, ' ');
    lemma_join_split(app, ' ');
    let pieces = split_on(app, ' ');
    assert(seq![pieces[0]] + pieces.drop_first() =~= pieces);
}

/// The full path and the short name of an application: given with a path
/// separator, the application is its own full path and its short name is
/// its last component; given without, it stands in the working directory
/// `cwd` under its own name.
pub open spec fn app_paths(app: Seq<char>, cwd: Seq<char>, sep: char) -> (Seq<char>, Seq<char>) {
    if app.contains(sep) {
        (app, split_on(app, sep).last())
    } else {
        (cwd.push(sep) + app, app)
    }
}

proof fn lemma_join_ends_with_last(p: Seq<Seq<char>>, sep: char)
    requires
        p.len() >= 1,
    ensures
        ends_with(join_with(p, sep), p.last()),
{
    let j = join_with(p, sep);
    if p.len() == 1 {
        assert(j.subrange(0, j.len() as int) =~= j);
    } else {
        let head = join_with(p.drop_last(), sep).push(sep);
        assert((head + p.last()).subrange(head.len() as int, j.len() as int) =~= p.last());
    }
}

/// Law: the short name of an application is the last path component of its
/// full path, and holds no separator.
pub proof fn lemma_short_name_ends_full_path(app: Seq<char>, cwd: Seq<char>, sep: char)
    ensures
        ends_with(app_paths(app, cwd, sep).0, app_paths(app, cwd, sep).1),
        !app_paths(app, cwd, sep).1.contains(sep),
{
    if app.contains(sep) {
        lemma_split_nonempty(app, sep);
        lemma_join_split(app, sep);
        lemma_join_ends_with_last(split_on(app, sep), sep);
        lemma_split_pieces_lack_separator(app, sep);
        assert(!split_on(app, sep)[split_on(app, sep).len() - 1].contains(sep));
    } else {
        let full = cwd.push(sep) + app;
        assert(full.subrange(full.len() - app.len(), full.len() as int) =~= app);
    }
}

/// The full path and the short name of the application `app`, as
/// `app_paths` says, with `sep` the platform's path separator.
pub fn resolve_app(app: &str, cwd: &str, sep: char) -> (r: (String, String))
    ensures
        (r.0@, r.1@) == app_paths(app@, cwd@, sep),
{
    let chars = chars_of(app);
    proof {
        lemma_index_of(app@, sep);
    }
    match find_char(&chars, sep) {
        Some(p) => {
            assert(app@[p as int] == sep);
            let parts = split_string(app, sep);
            proof {
                lemma_split_nonempty(app@, sep);
            }
            let last = parts.len() - 1;
            let short = parts[last].clone();
            assert(short@ == strings_view(parts@)[last as int]);
            (app.to_owned(), short)
        },
        None => {
            let mut full = cwd.to_owned();
            push_char(&mut full, sep);
            full.append(app);
            (full, app.to_owned())
        },
    }
}

/// Where an application was found: its full path, its short name and its
/// parameters.
pub struct AppLocation {
    pub full: String,
    pub short: String,
    pub params: Vec<String>,
}

/// Locates the application of the command line `app`: its full path and
/// short name as `app_paths` says of its first piece, and its parameters.
pub fn locate_app(app: &str, cwd: &str, sep: char) -> (r: AppLocation)
    ensures
        (r.full@, r.short@) == app_paths(command_program(app@), cwd@, sep),
        strings_view(r.params@) == command_params(app@),
{
    let (program, params) = split_command(app);
    let (full, short) = resolve_app(program.as_str(), cwd, sep);
    AppLocation { full, short, params }
}

/// The message that tells that the application `short` was not found.
pub open spec fn not_found_message(short: Seq<char>) -> Seq<char> {
    "Could not find application: "@ + short + "."@
}

/// The outcome of looking for a located application, where `listed` tells
/// whether the system listed its full path: the full path, short name and
/// parameters when it did, `BenchError::AppNotFound` naming the short name
/// when it did not.
pub fn check_in_current_dir(location: AppLocation, listed: bool) -> (r: Result<
    (String, String, Vec<String>),
    BenchError,
>)
    ensures
        listed ==> r == Ok::<(String, String, Vec<String>), BenchError>(
            (location.full, location.short, location.params),
        ),
        !listed ==> (r matches Err(BenchError::AppNotFound(m)) && m@ == not_found_message(
            location.short@,
        )),
{
    if listed {
        Ok((location.full, location.short, location.params))
    } else {
        let mut m = String::from_str("Could not find application: ");
        m.append(location.short.as_str());
        m.append(".");
        Err(BenchError::AppNotFound(m))
    }
}

/// The program that lists a path to tell whether it exists: `dir` on
/// Windows, `ls` elsewhere.
pub fn checker_program(windows: bool) -> (r: &'static str)
    ensures
        r@ == (if windows {
            "dir"@
        } else {
            "ls"@
        }),
{
    if windows {
        "dir"
    } else {
        "ls"
    }
}

/// The directory that holds the outputs of the benchmark of `app`.
pub open spec fn output_dir_spec(app: Seq<char>) -> Seq<char> {
    "bench_"@ + app
}

/// The directory that holds the outputs of the benchmark of `app`:
/// `bench_<app>`.
pub fn output_dir(app: &str) -> (r: String)
    ensures
        r@ == output_dir_spec(app@),
{
    let mut r = String::from_str("bench_");
    r.append(app);
    r
}

/// The path of the output file `filename` of the benchmark of `app`: the
/// file of that name in the output directory.
pub fn output_path(app: &str, filename: &str, sep: char) -> (r: String)
    ensures
        r@ == output_dir_spec(app@).push(sep) + filename@,
{
    let mut r = output_dir(app);
    push_char(&mut r, sep);
    r.append(filename);
    r
}

/// Law: neither the application nor any of its parameters holds a space:
/// together with `lemma_command_rejoins`, the pieces are exactly the
/// space-separated pieces of the command line.
pub proof fn lemma_command_pieces_lack_spaces(app: Seq<char>)
    ensures
        !command_program(app).contains(' '),
        forall|k: int|
            0 <= k < command_params(app).len() ==> !(#[trigger] command_params(app)[k]).contains(
                ' ',
            ),
{
    lemma_split_nonempty(app, ' ');
    lemma_split_pieces_lack_separator(app, ' ');
    let pieces = split_on(app, ' ');
    assert(!pieces[0].contains(' '));
    assert forall|k: int|
        0 <= k < command_params(app).len() implies !(#[trigger] command_params(app)[k]).contains(
        ' ',
    ) by {
        assert(command_params(app)[k] == pieces[k + 1]);
    }
}

/// Law: the output directory is `bench_` followed by the whole application
/// name, and an output file's path is that directory, the separator and the
/// whole file name.
pub proof fn lemma_output_names_keep_whole_names(app: Seq<char>, sep: char, filename: Seq<char>)
    ensures
        output_dir_spec(app).len() == app.len() + 6,
        output_dir_spec(app).take(6) == seq!['b', 'e', 'n', 'c', 'h', '_'],
        ends_with(output_dir_spec(app), app),
        ({
            let path = output_dir_spec(app).push(sep) + filename;
            &&& path.len() == app.len() + 7 + filename.len()
            &&& path.subrange(6, app.len() + 6int) == app
            &&& path[app.len() + 6int] == sep
            &&& ends_with(path, filename)
        }),
{
    reveal_strlit("bench_");
    let d = output_dir_spec(app);
    assert(d.take(6) =~= seq!['b', 'e', 'n', 'c', 'h', '_']);
    assert(d.subrange(d.len() - app.len(), d.len() as int) =~= app);
    let path = d.push(sep) + filename;
    assert(path.subrange(6, app.len() + 6int) =~= app);
    assert(path.subrange(path.len() - filename.len(), path.len() as int) =~= filename);
}

} // verus!
