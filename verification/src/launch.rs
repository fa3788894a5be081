//! The command line handed to each solver instance.

use vstd::prelude::*;
use vstd::string::StringExecFns;

verus! {

/// The flag that precedes the socket path on a solver's command line.
pub fn socket_flag() -> (flag: &'static str)
    ensures
        flag@ == "--lbd-socket-path"@,
{
    "--lbd-socket-path"
}

/// The text of each string, in order.
pub open spec fn texts(strings: Seq<String>) -> Seq<Seq<char>> {
    strings.map_values(|s: String| s@)
}

/// The arguments of one solver invocation: the input file, the flags shared
/// by every instance, the flags of this instance, and last the socket flag
/// with the path to dial back to.
pub open spec fn arguments_model(
    input_file: Seq<char>,
    solver_flags: Seq<Seq<char>>,
    instance_flags: Seq<Seq<char>>,
    socket_path: Seq<char>,
) -> Seq<Seq<char>> {
    seq![input_file] + solver_flags + instance_flags + seq!["--lbd-socket-path"@, socket_path]
}

/// Appends a copy of each string of `more` to `args`.
fn push_all(args: &mut Vec<String>, more: &Vec<String>)
    ensures
        texts(final(args)@) == texts(old(args)@) + texts(more@),
{
    let mut i: usize = 0;
    while i < more.len()
        invariant
            i <= more.len(),
            texts(args@) == texts(old(args)@) + texts(more@.take(i as int)),
        decreases more.len() - i,
    {
        let copy = more[i].clone();
        proof {
            assert(texts(args@.push(copy)) =~= texts(args@).push(copy@));
            assert(texts(more@.take(i + 1)) =~= texts(more@.take(i as int)).push(more@[i as int]@));
            assert(texts(old(args)@) + texts(more@.take(i as int)).push(copy@) =~= (texts(
                old(args)@,
            ) + texts(more@.take(i as int))).push(copy@));
        }
        args.push(copy);
        i = i + 1;
    }
    proof {
        assert(more@.take(more.len() as int) =~= more@);
    }
}

/// Builds the argument list of one solver invocation.
pub fn solver_arguments(
    input_file: &str,
    solver_flags: &Vec<String>,
    instance_flags: &Vec<String>,
    socket_path: &str,
) -> (args: Vec<String>)
    ensures
        texts(args@) == arguments_model(
            input_file@,
            texts(solver_flags@),
            texts(instance_flags@),
            socket_path@,
        ),
{
    let mut args: Vec<String> = Vec::new();
    let input = String::from_str(input_file);
    args.push(input);
    assert(texts(args@) =~= seq![input_file@]);
    push_all(&mut args, solver_flags);
    push_all(&mut args, instance_flags);
    let ghost before = args@;
    let flag = String::from_str(socket_flag());
    let path = String::from_str(socket_path);
    args.push(flag);
    args.push(path);
    assert(texts(args@) =~= texts(before) + seq!["--lbd-socket-path"@, socket_path@]);
    args
}

} // verus!
