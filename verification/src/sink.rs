//! Output sinks: how the programs that write filesystem images are called, and
//! what comes of a conversion once both sides of its pipe have ended.

use crate::text::texts;
use vstd::prelude::*;
use vstd::string::*;

verus! {

/// The arguments of `mksquashfs` for an archive from its standard input.
///
/// Compression is zstd at level 2. Fragments are off, which would hold all data
/// back until the end. Directories without an entry of their own get mode 0755
/// and belong to root.
pub open spec fn squashfs_arguments(output: Seq<char>) -> Seq<Seq<char>> {
    seq![
        "-"@,
        output,
        "-tar"@,
        "-noappend"@,
        "-no-fragments"@,
        "-comp"@,
        "zstd"@,
        "-Xcompression-level"@,
        "2"@,
        "-quiet"@,
        "-default-mode"@,
        "0755"@,
        "-default-uid"@,
        "0"@,
        "-default-gid"@,
        "0"@,
    ]
}

/// The arguments of `mkfs.erofs` for an archive from its standard input.
pub open spec fn erofs_arguments(output: Seq<char>) -> Seq<Seq<char>> {
    seq!["-L"@, "root"@, "--tar=f"@, output, "/dev/stdin"@]
}

fn add_argument(args: &mut Vec<String>, arg: &str)
    ensures
        texts(final(args)@) == texts(old(args)@).push(arg@),
{
    let ghost before = texts(args@);
    args.push(arg.to_owned());
    assert(texts(args@) =~= before.push(arg@));
}

/// The arguments of `mksquashfs` for an archive from its standard input.
pub fn mksquashfs_args(output: &str) -> (r: Vec<String>)
    ensures
        texts(r@) == squashfs_arguments(output@),
        r@.len() == 16,
        r@[0]@ == "-"@ && r@[1]@ == output@ && r@[2]@ == "-tar"@,
        r@[3]@ == "-noappend"@ && r@[4]@ == "-no-fragments"@,
        r@[5]@ == "-comp"@ && r@[6]@ == "zstd"@,
        r@[7]@ == "-Xcompression-level"@ && r@[8]@ == "2"@,
        r@[9]@ == "-quiet"@,
        r@[10]@ == "-default-mode"@ && r@[11]@ == "0755"@,
        r@[12]@ == "-default-uid"@ && r@[13]@ == "0"@,
        r@[14]@ == "-default-gid"@ && r@[15]@ == "0"@,
{
    let mut args: Vec<String> = Vec::new();
    assert(texts(args@) =~= Seq::empty());
    add_argument(&mut args, "-");
    add_argument(&mut args, output);
    add_argument(&mut args, "-tar");
    add_argument(&mut args, "-noappend");
    add_argument(&mut args, "-no-fragments");
    add_argument(&mut args, "-comp");
    add_argument(&mut args, "zstd");
    add_argument(&mut args, "-Xcompression-level");
    add_argument(&mut args, "2");
    add_argument(&mut args, "-quiet");
    add_argument(&mut args, "-default-mode");
    add_argument(&mut args, "0755");
    add_argument(&mut args, "-default-uid");
    add_argument(&mut args, "0");
    add_argument(&mut args, "-default-gid");
    add_argument(&mut args, "0");
    assert(texts(args@) =~= squashfs_arguments(output@));
    proof {
        let all = texts(args@);
        assert forall|i: int| 0 <= i < all.len() implies #[trigger] args@[i]@ == all[i] by {}
    }
    args
}

/// The arguments of `mkfs.erofs` for an archive from its standard input.
pub fn mkfs_erofs_args(output: &str) -> (r: Vec<String>)
    ensures
        texts(r@) == erofs_arguments(output@),
        r@.len() == 5,
        r@[0]@ == "-L"@ && r@[1]@ == "root"@,
        r@[2]@ == "--tar=f"@ && r@[3]@ == output@ && r@[4]@ == "/dev/stdin"@,
{
    let mut args: Vec<String> = Vec::new();
    assert(texts(args@) =~= Seq::empty());
    add_argument(&mut args, "-L");
    add_argument(&mut args, "root");
    add_argument(&mut args, "--tar=f");
    add_argument(&mut args, output);
    add_argument(&mut args, "/dev/stdin");
    assert(texts(args@) =~= erofs_arguments(output@));
    proof {
        let all = texts(args@);
        assert forall|i: int| 0 <= i < all.len() implies #[trigger] args@[i]@ == all[i] by {}
    }
    args
}

/// What comes of a conversion.
#[derive(Clone, Copy, Debug, PartialEq, Eq, Structural)]
pub enum SinkOutcome {
    /// The output is complete.
    Done,
    /// The merge failed; its error is reported.
    MergeFailed,
    /// The consumer of the merged archive failed; its error is reported.
    ConsumerFailed,
}

/// What comes of a conversion, given whether the merge succeeded and whether the
/// consumer of the merged archive did.
///
/// Where both failed, the error of the merge is reported, since a consumer that
/// fails then is mostly a consequence of the pipe closing early.
pub fn sink_outcome(merge_succeeded: bool, consumer_succeeded: bool) -> (r: SinkOutcome)
    ensures
        r == if !merge_succeeded {
            SinkOutcome::MergeFailed
        } else if !consumer_succeeded {
            SinkOutcome::ConsumerFailed
        } else {
            SinkOutcome::Done
        },
{
    if !merge_succeeded {
        SinkOutcome::MergeFailed
    } else if !consumer_succeeded {
        SinkOutcome::ConsumerFailed
    } else {
        SinkOutcome::Done
    }
}

impl SinkOutcome {
    /// Whether an output file is to be removed, so that no one sees an
    /// incomplete one. An output directory stays in any case.
    pub fn removes_file(self) -> (r: bool)
        ensures
            r == (self != SinkOutcome::Done),
    {
        match self {
            SinkOutcome::Done => false,
            _ => true,
        }
    }
}

} // verus!
