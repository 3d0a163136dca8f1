//! What is sent for a file, who may write to a module, and what is counted.

use vstd::prelude::*;

use crate::checksum::strong::{md5_digest, seed_bytes, strong_sum, ChecksumType};
use crate::client::{daemon_args, far_args};
use crate::daemon::{admission, in_module, listening, Config, ModuleModel};
use crate::delta::complete::{first_of_equal_blocks_is_taken, passes_for};
use crate::delta::match_blocks::{sum_head_bytes, DeltaOp};
use crate::fileops::taken_in;
use crate::io::varint::enc_int;
use crate::laws::wire::{integers_go_lowest_byte_first, layouts_go_as_four_integers};
use crate::options::Options;
use crate::pipeline::generator::request_counted;
use crate::pipeline::receiver::receipt_counted;
use crate::pipeline::sender::{
    file_output, job_steps, piece_of, send_counted, skipped_bytes, JobModel,
};
use crate::protocol::types::{Stats, SumHead};
use crate::session::goodbye_is_answered;
use crate::transport::daemon::argv_bytes;

verus! {

// ---------------------------------------------------------------------------
// Files
// ---------------------------------------------------------------------------

/// A sender takes a block of the older version for a part of the file only
/// where the rolling checksum and all of the strong checksum that was sent of
/// the block are those of that part.
pub proof fn whole_checksums_are_compared(job: JobModel, data: Seq<u8>, seed: i32, i: int)
    requires
        data.len() <= u64::MAX,
        job.sums.len() <= i32::MAX,
        0 < job.head.blength,
        0 <= job.head.s2length,
        0 <= i < job_steps(job, data, seed).len(),
        job_steps(job, data, seed)[i] is Match,
    ensures
        job_steps(job, data, seed)[i] matches DeltaOp::Match { block_idx, offset } && block_idx
            < job.sums.len() && passes_for(
            job.sums[block_idx as int],
            data.subrange(offset as int, offset + job.head.blength),
            job.head.s2length as nat,
            seed as u32,
        ),
{
    first_of_equal_blocks_is_taken(
        data,
        job.head,
        job.sums,
        job.head.s2length as nat,
        seed as u32,
        i,
        0,
    );
}

/// What is sent for a file starts with the layout that was asked about and ends
/// with a zero and the MD5 digest of the whole file, without a seed.
pub proof fn file_ends_with_its_digest(
    output: Seq<u8>,
    job: JobModel,
    data: Seq<u8>,
    seed: i32,
)
    ensures
        file_output(output, job, data, seed, false) matches Ok(s) && ({
            let n = output.len() as int;
            &&& s.len() >= n + 36
            &&& s.take(n) == output
            &&& s.subrange(n, n + 16) == sum_head_bytes(job.head)
            &&& s.subrange(s.len() - 20, s.len() - 16) == enc_int(0)
            &&& s.skip(s.len() - 16) == md5_digest(data)
        }),
{
    let s = file_output(output, job, data, seed, false)->Ok_0;
    let n = output.len() as int;
    layouts_go_as_four_integers(job.head);
    integers_go_lowest_byte_first(0);
    crate::checksum::strong::strong_sums_have_a_length(data, ChecksumType::Md5, 0, false);
    let sum = strong_sum(data, ChecksumType::Md5, 0, false);
    assert(data + seed_bytes(0) =~= data);
    assert(sum == md5_digest(data));
    assert(s.take(n) =~= output);
    assert(s.subrange(n, n + 16) =~= sum_head_bytes(job.head));
    assert(s.subrange(s.len() - 20, s.len() - 16) =~= enc_int(0));
    assert(s.skip(s.len() - 16) =~= sum);
}

/// What is sent for a file that cannot be had is its layout, no data, and no
/// digest.
pub proof fn missing_file_has_no_data(h: SumHead)
    ensures
        ({
            let s = skipped_bytes(h);
            &&& s.len() == 36
            &&& s.take(16) == sum_head_bytes(h)
            &&& forall|k: int| 16 <= k < 36 ==> #[trigger] s[k] == 0
        }),
{
    let s = skipped_bytes(h);
    layouts_go_as_four_integers(h);
    integers_go_lowest_byte_first(0);
    let z = enc_int(0);
    assert(z[0] == 0 && z[1] == 0 && z[2] == 0 && z[3] == 0);
    assert(s.take(16) =~= sum_head_bytes(h));
    assert forall|k: int| 16 <= k < 36 implies #[trigger] s[k] == 0 by {
        if k < 20 {
            assert(s[k] == z[k - 16]);
        }
    }
}

/// A literal is the bytes of the file that it names.
pub proof fn literals_are_the_bytes_they_name(data: Seq<u8>, from: int, len: int)
    requires
        0 <= from,
        0 <= len,
        from + len <= data.len(),
    ensures
        piece_of(data, from, len) == data.subrange(from, from + len),
{
}

/// A file is taken in from its start, and whole unless it is longer than the
/// limit.
pub proof fn files_are_taken_in_from_the_start(data: Seq<u8>, max_size: nat, i: int)
    ensures
        data.len() <= max_size ==> taken_in(data, max_size) == data,
        data.len() > max_size ==> taken_in(data, max_size).len() == max_size,
        0 <= i < taken_in(data, max_size).len() ==> taken_in(data, max_size)[i] == data[i],
{
}

/// A goodbye is answered from protocol 31 on, where it is one.
pub proof fn goodbyes_are_answered(protocol: u32, ndx: i32)
    ensures
        goodbye_is_answered(protocol, (-1) as i32) == (protocol >= 31),
        ndx != -1 ==> !goodbye_is_answered(protocol, ndx),
{
}

// ---------------------------------------------------------------------------
// Modules
// ---------------------------------------------------------------------------

/// A client that would write to a read-only module is refused, by the name of
/// the module; one that would not write is let in, and so is anyone to a module
/// that is not read-only.
pub proof fn read_only_modules_are_not_written(args: Seq<Seq<char>>, m: ModuleModel)
    ensures
        m.read_only && !args.contains("--sender"@) ==> admission(args, m) is Err,
        !m.read_only ==> admission(args, m) is Ok,
        args.contains("--sender"@) ==> admission(args, m) == Ok::<bool, Seq<char>>(true),
        admission(args, m) == Ok::<bool, Seq<char>>(false) ==> !m.read_only,
        admission(args, m) matches Err(line) ==> line == "@ERROR: module '"@ + m.name
            + "' is read only\n"@,
{
}

/// A client that receives is let into any module, and the daemon then sends.
pub proof fn receiving_clients_are_let_in(o: Options, path: Seq<char>, m: ModuleModel)
    ensures
        admission(daemon_args(o, path, false), m) == Ok::<bool, Seq<char>>(true),
{
    let args = daemon_args(o, path, false);
    let k = far_args(o, false).len() - 1;
    assert(args[k] == "--sender"@);
}

/// Behind the dot the name of the module, with or without a slash, stands for
/// the top of the module; any other argument is left as it is.
pub proof fn module_name_is_its_top(arg: Seq<char>, seen_dot: bool, module: Seq<char>)
    ensures
        in_module(module, true, module) == seq!['.'],
        in_module(module.push('/'), true, module) == seq!['.'],
        in_module(arg, false, module) == arg,
        arg != module && arg != module.push('/') ==> in_module(arg, seen_dot, module) == arg,
{
    reveal_strlit(".");
    reveal_strlit("/");
    assert("."@ =~= seq!['.']);
    assert(module + "/"@ =~= module.push('/'));
}

/// The daemon listens at the port of its options, before that of its
/// configuration, before 873; and on all addresses unless one is named.
pub proof fn daemon_listens_where_it_is_told(port: u16, c: Config)
    ensures
        listening(Some(port), c).1 == port,
        c.port is Some ==> listening(None, c).1 == c.port->0,
        c.port is None ==> listening(None, c).1 == 873,
        c.address is Some ==> listening(Some(port), c).0 == c.address->0,
        c.address is None ==> listening(None, c).0 == "0.0.0.0"@,
{
}

/// The arguments for a daemon start with the word that makes a server of it,
/// each ends with a zero byte, and so do all of them.
pub proof fn arguments_end_with_zero_bytes(args: Seq<Seq<char>>)
    ensures
        ({
            let b = argv_bytes(args);
            let server = vstd::utf8::encode_utf8("--server"@);
            &&& b.len() >= server.len() + 2
            &&& b.take(server.len() as int) == server
            &&& b[server.len() as int] == 0
            &&& b.last() == 0
        }),
{
    let b = argv_bytes(args);
    let server = vstd::utf8::encode_utf8("--server"@);
    assert(b.take(server.len() as int) =~= server);
}

// ---------------------------------------------------------------------------
// Counters
// ---------------------------------------------------------------------------

/// A file that was sent counts as transferred, with all its bytes; one that was
/// asked for counts as seen, with the bytes that were summed; one that came in
/// counts as seen, transferred and created, with all its bytes.
pub proof fn files_are_counted_once(s: Stats, data: Seq<u8>)
    requires
        0 <= s.total_written,
        s.total_written + data.len() <= i64::MAX,
        s.xferred_files < i32::MAX,
        s.num_files < i32::MAX,
        s.created_files < i32::MAX,
    ensures
        ({
            let t = send_counted(s, data.len() as int);
            &&& t.xferred_files == s.xferred_files + 1
            &&& t.total_written == s.total_written + data.len()
            &&& t.num_files == s.num_files && t.created_files == s.created_files
        }),
        ({
            let t = request_counted(s, Some(data));
            &&& t.num_files == s.num_files + 1
            &&& t.total_written == s.total_written + data.len()
            &&& t.xferred_files == s.xferred_files && t.created_files == s.created_files
        }),
        ({
            let t = request_counted(s, None);
            t.num_files == s.num_files + 1 && t.total_written == s.total_written
        }),
        ({
            let t = receipt_counted(s, data.len() as int);
            &&& t.num_files == s.num_files + 1
            &&& t.xferred_files == s.xferred_files + 1
            &&& t.created_files == s.created_files + 1
            &&& t.total_written == s.total_written + data.len()
        }),
{
}

} // verus!
