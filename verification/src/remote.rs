//! The shell commands that run on the workers.
use crate::batch::{build_filter_expr, filter_expr};
use crate::nextest::ListedTest;
use crate::shell::{append_arguments, arguments_arrive_whole, forwarded, shell_words};
use crate::text::{chars_of, text_between, texts};
use vstd::prelude::*;

verus! {

/// The directory on a worker that holds the project.
pub const REMOTE_WORK_DIR: &'static str = "~/.partest-work";

/// Where a worker keeps the packed sources.
pub open spec fn source_archive() -> Seq<char> {
    REMOTE_WORK_DIR@ + "/source.tar.gz"@
}

/// Where a worker keeps the packed sources.
pub fn source_archive_path() -> (path: String)
    ensures
        path@ == source_archive(),
{
    let mut path = REMOTE_WORK_DIR.to_owned();
    path.append("/source.tar.gz");
    path
}

/// The command that replaces a worker's sources by the packed ones and keeps
/// what was built before.
pub fn unpack_command() -> (command: String)
    ensures
        command@ == "mkdir -p "@ + REMOTE_WORK_DIR@ + "/src && cd "@ + REMOTE_WORK_DIR@
            + "/src && find . -mindepth 1 -maxdepth 1 ! -name target -exec rm -rf {} + && tar xzf "@
            + source_archive(),
{
    let mut command = "mkdir -p ".to_owned();
    command.append(REMOTE_WORK_DIR);
    command.append("/src && cd ");
    command.append(REMOTE_WORK_DIR);
    command.append(
        "/src && find . -mindepth 1 -maxdepth 1 ! -name target -exec rm -rf {} + && tar xzf ",
    );
    command.append(source_archive_path().as_str());
    command
}

/// The option that selects a release build, with a blank before it.
pub open spec fn release_option(release: bool) -> Seq<char> {
    if release {
        " --release"@
    } else {
        ""@
    }
}

/// The command that builds the tests on a worker.
pub fn build_command(release: bool) -> (command: String)
    ensures
        command@ == "cd "@ + REMOTE_WORK_DIR@ + "/src && cargo build --tests"@ + release_option(
            release,
        ),
        release ==> command@ == "cd "@ + REMOTE_WORK_DIR@ + "/src && cargo build --tests"@
            + " --release"@,
{
    let mut command = "cd ".to_owned();
    command.append(REMOTE_WORK_DIR);
    command.append("/src && cargo build --tests");
    command.append(
        if release {
            " --release"
        } else {
            ""
        },
    );
    command
}

/// The arguments of a test run: those that make nextest use a release build,
/// where that is asked for, the expression that selects the tests, and the
/// forwarded arguments.
pub open spec fn run_arguments(
    release: bool,
    tests: Seq<ListedTest>,
    arguments: Seq<Seq<char>>,
) -> Seq<Seq<char>> {
    let profile = if release {
        seq!["--cargo-profile"@, "release"@]
    } else {
        Seq::empty()
    };
    profile + seq!["-E"@, filter_expr(tests)] + arguments
}

/// The arguments of a test run.
fn run_argument_list(release: bool, tests: &[ListedTest], nextest_args: &[String]) -> (list: Vec<
    String,
>)
    ensures
        texts(list@) == run_arguments(release, tests@, texts(nextest_args@)),
{
    let mut list: Vec<String> = Vec::new();
    if release {
        list.push("--cargo-profile".to_owned());
        list.push("release".to_owned());
    }
    list.push("-E".to_owned());
    list.push(build_filter_expr(tests));
    let ghost start = run_arguments(release, tests@, Seq::empty());
    assert(texts(list@) =~= start);
    let mut i: usize = 0;
    assert(start == start + texts(nextest_args@).take(0));
    while i < nextest_args.len()
        invariant
            i <= nextest_args@.len(),
            texts(list@) == start + texts(nextest_args@).take(i as int),
        decreases nextest_args@.len() - i,
    {
        let ghost earlier = texts(list@);
        list.push(nextest_args[i].clone());
        assert(texts(list@) =~= earlier.push(nextest_args@[i as int]@));
        i += 1;
    }
    assert(texts(list@) =~= run_arguments(release, tests@, texts(nextest_args@)));
    list
}

/// The command that runs a set of tests on a worker.
pub open spec fn test_command(
    release: bool,
    tests: Seq<ListedTest>,
    arguments: Seq<Seq<char>>,
) -> Seq<char> {
    "cd "@ + REMOTE_WORK_DIR@ + "/src && cargo nextest run"@ + forwarded(
        run_arguments(release, tests, arguments),
    )
}

/// The command that runs a set of tests on a worker.
pub fn run_command(release: bool, tests: &[ListedTest], nextest_args: &[String]) -> (command:
    String)
    ensures
        command@ == test_command(release, tests@, texts(nextest_args@)),
        command@ == "cd "@ + REMOTE_WORK_DIR@ + "/src && cargo nextest run"@ + forwarded(
            (if release {
                seq!["--cargo-profile"@, "release"@]
            } else {
                Seq::empty()
            }) + seq!["-E"@, filter_expr(tests@)] + texts(nextest_args@),
        ),
{
    let mut command = "cd ".to_owned();
    command.append(REMOTE_WORK_DIR);
    command.append("/src && cargo nextest run");
    append_arguments(
        &mut command,
        run_argument_list(release, tests, nextest_args).as_slice(),
    );
    command
}

/// A test run gets its arguments whole: behind `cargo nextest run` a worker's
/// shell reads the arguments of the run and nothing else, and the last of them
/// are the forwarded ones, unchanged and in order.
pub proof fn run_gets_its_arguments(
    release: bool,
    tests: Seq<ListedTest>,
    arguments: Seq<Seq<char>>,
)
    ensures
        ({
            let all = run_arguments(release, tests, arguments);
            let start = "cd "@ + REMOTE_WORK_DIR@ + "/src && cargo nextest run"@;
            let behind = test_command(release, tests, arguments).skip(start.len() as int);
            &&& test_command(release, tests, arguments) == start + behind
            &&& shell_words(behind) == Some(all)
            &&& all.skip(all.len() - arguments.len()) == arguments
            &&& all[all.len() - arguments.len() - 2] == "-E"@
            &&& all[all.len() - arguments.len() - 1] == filter_expr(tests)
        }),
{
    let all = run_arguments(release, tests, arguments);
    let start = "cd "@ + REMOTE_WORK_DIR@ + "/src && cargo nextest run"@;
    let command = test_command(release, tests, arguments);
    assert(command == start + forwarded(all));
    assert(command.skip(start.len() as int) == forwarded(all));
    arguments_arrive_whole(all);
    assert(all.skip(all.len() - arguments.len()) == arguments);
}

/// The position of the last slash that stands before position `n`, if any.
pub open spec fn last_slash(path: Seq<char>, n: int) -> Option<int>
    decreases n,
{
    if n <= 0 {
        None
    } else if path[n - 1] == '/' {
        Some(n - 1)
    } else {
        last_slash(path, n - 1)
    }
}

/// The directory that a path lies in: what precedes its last slash, the root
/// where nothing precedes it, or the current directory where there is no slash.
pub open spec fn parent_dir(path: Seq<char>) -> Seq<char> {
    match last_slash(path, path.len() as int) {
        Some(at) => if at == 0 {
            "/"@
        } else {
            path.take(at)
        },
        None => "."@,
    }
}

/// The directory that a path lies in: what precedes its last slash, the root
/// where nothing precedes it, or the current directory where there is no slash.
pub fn remote_dir(remote_path: &str) -> (dir: String)
    ensures
        dir@ == parent_dir(remote_path@),
{
    let chars = chars_of(remote_path);
    let mut i: usize = chars.len();
    while i > 0
        invariant
            i <= chars@.len(),
            chars@ == remote_path@,
            last_slash(chars@, chars@.len() as int) == last_slash(chars@, i as int),
        decreases i,
    {
        if chars[i - 1] == '/' {
            if i == 1 {
                return "/".to_owned();
            }
            assert(chars@.subrange(0, i - 1) == remote_path@.take(i - 1));
            return text_between(&chars, 0, i - 1);
        }
        i -= 1;
    }
    ".".to_owned()
}

/// The command that makes the directory of a file that is to be uploaded. The
/// worker's shell reads the path, so that it can begin with a tilde.
pub fn make_dir_command(remote_path: &str) -> (command: String)
    ensures
        command@ == "mkdir -p "@ + parent_dir(remote_path@),
{
    let mut command = "mkdir -p ".to_owned();
    command.append(remote_dir(remote_path).as_str());
    command
}

/// The command that writes its input to a file. The worker's shell reads the
/// path, so that it can begin with a tilde.
pub fn write_command(remote_path: &str) -> (command: String)
    ensures
        command@ == "cat > "@ + remote_path@,
{
    let mut command = "cat > ".to_owned();
    command.append(remote_path);
    command
}

/// The arguments that make tar pack the project in the current directory,
/// without its build outputs and its history.
pub fn pack_arguments(archive: &str) -> (arguments: Vec<String>)
    ensures
        texts(arguments@) == seq![
            "czf"@,
            archive@,
            "--exclude"@,
            "./target"@,
            "--exclude"@,
            "./.git"@,
            "."@,
        ],
{
    let mut arguments: Vec<String> = Vec::new();
    arguments.push("czf".to_owned());
    arguments.push(archive.to_owned());
    arguments.push("--exclude".to_owned());
    arguments.push("./target".to_owned());
    arguments.push("--exclude".to_owned());
    arguments.push("./.git".to_owned());
    arguments.push(".".to_owned());
    assert(texts(arguments@) =~= seq![
        "czf"@,
        archive@,
        "--exclude"@,
        "./target"@,
        "--exclude"@,
        "./.git"@,
        "."@,
    ]);
    arguments
}

/// A directory to make is always named: no path lies in a directory without a
/// name.
pub proof fn parent_is_named(path: Seq<char>)
    ensures
        parent_dir(path).len() > 0,
{
    reveal_strlit("/");
    reveal_strlit(".");
    last_slash_is_inside(path, path.len() as int);
}

/// The last slash stands before the position that it is sought from.
proof fn last_slash_is_inside(path: Seq<char>, n: int)
    ensures
        last_slash(path, n) matches Some(at) ==> 0 <= at < n,
    decreases n,
{
    if n > 0 {
        last_slash_is_inside(path, n - 1);
    }
}

/// The directory of the packed sources is the work directory itself.
pub proof fn archive_lies_in_work_dir()
    ensures
        parent_dir(source_archive()) == REMOTE_WORK_DIR@,
{
    reveal_strlit("/source.tar.gz");
    reveal_strlit("~/.partest-work");
    let path = source_archive();
    let n = REMOTE_WORK_DIR@.len() as int;
    assert(path[n] == '/');
    reveal_with_fuel(last_slash, 15);
    assert(last_slash(path, path.len() as int) == Some(n));
    assert(path.take(n) == REMOTE_WORK_DIR@);
}

/// What a worker's shell reads behind `cargo nextest run`: the option for a release
/// build where one is asked for, whatever else there is, then the expression for the
/// tests, then the forwarded arguments, and nothing besides.
pub proof fn run_words(release: bool, tests: Seq<ListedTest>, arguments: Seq<Seq<char>>)
    ensures
        ({
            let start = "cd "@ + REMOTE_WORK_DIR@ + "/src && cargo nextest run"@;
            let behind = test_command(release, tests, arguments).skip(start.len() as int);
            &&& test_command(release, tests, arguments).take(start.len() as int) == start
            &&& release ==> shell_words(behind) == Some(
                seq!["--cargo-profile"@, "release"@, "-E"@, filter_expr(tests)] + arguments,
            )
            &&& !release ==> shell_words(behind) == Some(
                seq!["-E"@, filter_expr(tests)] + arguments,
            )
        }),
{
    run_gets_its_arguments(release, tests, arguments);
    let start = "cd "@ + REMOTE_WORK_DIR@ + "/src && cargo nextest run"@;
    let command = test_command(release, tests, arguments);
    assert(command.take(start.len() as int) == start);
    if release {
        assert(run_arguments(release, tests, arguments) =~= seq![
            "--cargo-profile"@,
            "release"@,
            "-E"@,
            filter_expr(tests),
        ] + arguments);
    } else {
        assert(run_arguments(release, tests, arguments) =~= seq!["-E"@, filter_expr(tests)]
            + arguments);
    }
}

/// The last slash before a position is at one place, whatever follows it is free of
/// slashes.
proof fn last_slash_at(path: Seq<char>, at: int, n: int)
    requires
        0 <= at < n <= path.len(),
        path[at] == '/',
        forall|i: int| at < i < n ==> path[i] != '/',
    ensures
        last_slash(path, n) == Some(at),
    decreases n,
{
    if n - 1 > at {
        last_slash_at(path, at, n - 1);
    }
}

/// Without slashes there is no last one.
proof fn no_last_slash(path: Seq<char>, n: int)
    requires
        n <= path.len(),
        forall|i: int| 0 <= i < n ==> path[i] != '/',
    ensures
        last_slash(path, n) is None,
    decreases n,
{
    if n > 0 {
        no_last_slash(path, n - 1);
    }
}

/// A file in a directory lies in that directory, a file under the root lies in the
/// root, and a file that is named alone lies in the current directory.
pub proof fn files_lie_in_their_directory(dir: Seq<char>, file: Seq<char>)
    requires
        !file.contains('/'),
    ensures
        dir.len() > 0 ==> parent_dir(dir + seq!['/'] + file) == dir,
        parent_dir(seq!['/'] + file) == seq!['/'],
        parent_dir(file) == seq!['.'],
{
    reveal_strlit("/");
    reveal_strlit(".");
    assert("/"@ =~= seq!['/']);
    assert("."@ =~= seq!['.']);
    let path = dir + seq!['/'] + file;
    assert forall|i: int| dir.len() < i < path.len() implies path[i] != '/' by {
        assert(path[i] == file[i - dir.len() - 1]);
    }
    last_slash_at(path, dir.len() as int, path.len() as int);
    assert(path.take(dir.len() as int) == dir);
    let rooted = seq!['/'] + file;
    assert forall|i: int| 0 < i < rooted.len() implies rooted[i] != '/' by {
        assert(rooted[i] == file[i - 1]);
    }
    last_slash_at(rooted, 0, rooted.len() as int);
    no_last_slash(file, file.len() as int);
}

} // verus!
