//! The command line: `[--cuda] [--cuda-device ID | --cuda-devices ID,ID,...]
//! [-j WORKERS] NODE_ADDRESS:PORT YOUR_WALLET_ADDRESS_HEX`.

use vstd::prelude::*;
use vstd::utf8::encode_utf8;
use crate::number::{parse_i32, parse_i32_chars, parse_unsigned, parse_unsigned_chars};
use crate::text::{chars_of, copy_range, find_char, first_index_of, lemma_first_index_of};

verus! {

/// The number of hexadecimal digits of a wallet address.
pub const WALLET_HEX_LEN: usize = 3904;

/// What the command line asks for.
pub struct MinerOptions {
    pub workers: usize,
    pub cuda_enabled: bool,
    pub cuda_devices: Vec<i32>,
    pub node: String,
    pub wallet_hex: String,
}

/// Either a mining run, or the usage text (for `-h`, `--help` or a bad command line).
pub enum Command {
    Run(MinerOptions),
    Usage,
}

/// Options read so far: workers, CUDA requested, CUDA devices, positional arguments.
pub type ArgState = (usize, bool, Seq<i32>, Seq<Seq<char>>);

/// The comma-separated parts of `s` (one part when there is no comma).
pub open spec fn split_commas(s: Seq<char>) -> Seq<Seq<char>>
    decreases s.len(),
{
    proof {
        lemma_first_index_of(s, ',');
    }
    match first_index_of(s, ',') {
        None => seq![s],
        Some(i) => seq![s.take(i)] + split_commas(s.skip(i + 1)),
    }
}

/// A comma-separated list of decimal `i32` device numbers, each read as
/// `str::parse::<i32>` reads it; `None` when some part is not one.
pub open spec fn device_list(s: Seq<char>) -> Option<Seq<i32>> {
    let parts = split_commas(s);
    if forall|k: int| 0 <= k < parts.len() ==> #[trigger] parse_i32(parts[k]) is Ok {
        Some(Seq::new(parts.len(), |k: int| parse_i32(parts[k])->Ok_0 as i32))
    } else {
        None
    }
}

/// Reads a comma-separated list of device numbers.
pub fn parse_device_list(s: &[char]) -> (r: Option<Vec<i32>>)
    ensures
        match r {
            Some(v) => device_list(s@) == Some(v@),
            None => device_list(s@) is None,
        },
{
    let n = s.len();
    let mut devices: Vec<i32> = Vec::new();
    let mut start: usize = 0;
    let ghost all = split_commas(s@);
    let ghost done: Seq<Seq<char>> = Seq::empty();
    assert(s@.skip(0) =~= s@);
    loop
        invariant
            n == s@.len(),
            start <= n,
            all == split_commas(s@),
            all == done + split_commas(s@.skip(start as int)),
            devices@.len() == done.len(),
            forall|k: int| 0 <= k < done.len() ==> #[trigger] parse_i32(done[k]) is Ok
                && devices@[k] == parse_i32(done[k])->Ok_0 as i32,
        decreases n - start,
    {
        let rest = copy_range(s, start, n);
        assert(rest@ =~= s@.skip(start as int));
        proof {
            lemma_first_index_of(rest@, ',');
        }
        let (end, next) = match find_char(&rest, ',') {
            Some(i) => (start + i, true),
            None => (n, false),
        };
        let part = copy_range(s, start, end);
        let ghost piece = part@;
        let ghost later = if next { split_commas(s@.skip(end + 1)) } else { Seq::<Seq<char>>::empty() };
        proof {
            assert(piece =~= rest@.take(end - start));
            if next {
                assert(rest@.skip(end - start + 1) =~= s@.skip(end + 1));
                assert(split_commas(rest@) == seq![piece] + later);
            } else {
                assert(piece =~= rest@);
                assert(split_commas(rest@) == seq![piece]);
                assert(seq![piece] =~= seq![piece] + later);
            }
            assert(all =~= done.push(piece) + later);
        }
        match crate::number::parse_i32_chars(&part) {
            Ok(d) => {
                devices.push(d);
                proof {
                    assert(done.push(piece)[done.len() as int] == piece);
                    done = done.push(piece);
                }
            },
            Err(_) => {
                proof {
                    assert(all[done.len() as int] == piece);
                }
                return None;
            },
        }
        if !next {
            assert(all =~= done);
            assert(devices@ =~= Seq::new(all.len(), |k: int| parse_i32(all[k])->Ok_0 as i32));
            return Some(devices);
        }
        start = end + 1;
    }
}

/// `n`, but at least one.
pub open spec fn at_least_one(n: nat) -> usize {
    if n == 0 {
        1
    } else {
        n as usize
    }
}

/// What an argument is.
#[derive(Clone, Copy, PartialEq, Eq, Structural)]
pub enum ArgKind {
    Threads,
    Cuda,
    CudaDevice,
    CudaDevices,
    Help,
    Positional,
}

/// What the argument `a` is: `-j`/`--threads`, `--cuda`, `--cuda-device`,
/// `--cuda-devices`, `-h`/`--help`, or a positional argument.
pub open spec fn arg_kind(a: Seq<char>) -> ArgKind {
    if a == "-j"@ || a == "--threads"@ {
        ArgKind::Threads
    } else if a == "--cuda"@ {
        ArgKind::Cuda
    } else if a == "--cuda-device"@ {
        ArgKind::CudaDevice
    } else if a == "--cuda-devices"@ {
        ArgKind::CudaDevices
    } else if a == "-h"@ || a == "--help"@ {
        ArgKind::Help
    } else {
        ArgKind::Positional
    }
}

/// What the argument `a` is.
pub fn classify_arg(a: &String) -> (r: ArgKind)
    ensures
        r == arg_kind(a@),
{
    if *a == String::from_str("-j") || *a == String::from_str("--threads") {
        ArgKind::Threads
    } else if *a == String::from_str("--cuda") {
        ArgKind::Cuda
    } else if *a == String::from_str("--cuda-device") {
        ArgKind::CudaDevice
    } else if *a == String::from_str("--cuda-devices") {
        ArgKind::CudaDevices
    } else if *a == String::from_str("-h") || *a == String::from_str("--help") {
        ArgKind::Help
    } else {
        ArgKind::Positional
    }
}

/// The options after reading `args` from position `i` on, starting from
/// `st`; `None` when the usage text is due instead.
pub open spec fn scan_args(args: Seq<Seq<char>>, i: int, st: ArgState) -> Option<ArgState>
    decreases args.len() - i,
{
    if i < 0 || i >= args.len() {
        Some(st)
    } else {
        match arg_kind(args[i]) {
            ArgKind::Threads => if i + 1 >= args.len() {
                None
            } else {
                match parse_unsigned(args[i + 1], 10, usize::MAX as nat) {
                    Ok(w) => scan_args(args, i + 2, (at_least_one(w), st.1, st.2, st.3)),
                    Err(_) => None,
                }
            },
            ArgKind::Cuda => scan_args(args, i + 1, (st.0, true, st.2, st.3)),
            ArgKind::CudaDevice => if i + 1 >= args.len() {
                None
            } else {
                match parse_i32(args[i + 1]) {
                    Ok(d) => scan_args(args, i + 2, (st.0, st.1, seq![d as i32], st.3)),
                    Err(_) => None,
                }
            },
            ArgKind::CudaDevices => if i + 1 >= args.len() {
                None
            } else {
                match device_list(args[i + 1]) {
                    Some(ds) => scan_args(args, i + 2, (st.0, st.1, ds, st.3)),
                    None => None,
                }
            },
            ArgKind::Help => None,
            ArgKind::Positional => scan_args(args, i + 1, (st.0, st.1, st.2, st.3.push(args[i]))),
        }
    }
}

/// The options `args` ask for, with `default_workers` workers unless `-j` says
/// otherwise and CUDA device 0 unless `--cuda-device` or `--cuda-devices` names
/// others (the last such option counts); `None` when the usage text is due: on `-h`/`--help`, an option
/// without its value or with a bad one, other than two positional arguments,
/// or a wallet that is not 3904 bytes long.
pub open spec fn command_for(args: Seq<Seq<char>>, default_workers: usize) -> Option<ArgState> {
    match scan_args(args, 0, (default_workers, false, seq![0i32], Seq::<Seq<char>>::empty())) {
        Some(st) => if st.3.len() == 2 && encode_utf8(st.3[1]).len() == WALLET_HEX_LEN {
            Some(st)
        } else {
            None
        },
        None => None,
    }
}

/// The texts of the arguments.
pub open spec fn arg_texts(args: Seq<String>) -> Seq<Seq<char>> {
    args.map_values(|a: String| a@)
}

/// Reads the command line (without the program name).
pub fn parse_args(args: &Vec<String>, default_workers: usize) -> (r: Command)
    ensures
        match r {
            Command::Run(o) => command_for(arg_texts(args@), default_workers) == Some::<ArgState>(
                (o.workers, o.cuda_enabled, o.cuda_devices@, seq![o.node@, o.wallet_hex@]),
            ),
            Command::Usage => command_for(arg_texts(args@), default_workers) is None,
        },
{
    let ghost texts = arg_texts(args@);
    let mut workers = default_workers;
    let mut cuda_enabled = false;
    let mut cuda_devices: Vec<i32> = Vec::new();
    cuda_devices.push(0);
    let mut positional: Vec<String> = Vec::new();
    let ghost start: ArgState = (default_workers, false, seq![0i32], Seq::<Seq<char>>::empty());
    let n = args.len();
    let mut i: usize = 0;
    assert(arg_texts(positional@) =~= Seq::<Seq<char>>::empty());
    while i < n
        invariant
            n == args@.len(),
            texts == arg_texts(args@),
            start == (default_workers, false, seq![0i32], Seq::<Seq<char>>::empty()),
            i <= n,
            scan_args(texts, 0, start) == scan_args(
                texts,
                i as int,
                (workers, cuda_enabled, cuda_devices@, arg_texts(positional@)),
            ),
        decreases n - i,
    {
        let ghost cur: ArgState = (workers, cuda_enabled, cuda_devices@, arg_texts(positional@));
        assert(texts[i as int] == args@[i as int]@);
        match classify_arg(&args[i]) {
            ArgKind::Threads => {
                if i + 1 >= n {
                    assert(scan_args(texts, i as int, cur) is None);
                    return Command::Usage;
                }
                let value = chars_of(args[i + 1].as_str());
                assert(texts[i + 1] == value@);
                match parse_unsigned_chars(&value, 10, usize::MAX as u64) {
                    Ok(w) => {
                        workers = if w == 0 {
                            1
                        } else {
                            w as usize
                        };
                    },
                    Err(_) => {
                        assert(scan_args(texts, i as int, cur) is None);
                            return Command::Usage;
                    },
                }
                i = i + 2;
            },
            ArgKind::Cuda => {
                cuda_enabled = true;
                i = i + 1;
            },
            ArgKind::CudaDevice => {
                if i + 1 >= n {
                    assert(scan_args(texts, i as int, cur) is None);
                    return Command::Usage;
                }
                let value = chars_of(args[i + 1].as_str());
                assert(texts[i + 1] == value@);
                match parse_i32_chars(&value) {
                    Ok(d) => {
                        let mut one: Vec<i32> = Vec::new();
                        one.push(d);
                        assert(one@ =~= seq![d]);
                        cuda_devices = one;
                    },
                    Err(_) => {
                        assert(scan_args(texts, i as int, cur) is None);
                            return Command::Usage;
                    },
                }
                i = i + 2;
            },
            ArgKind::CudaDevices => {
                if i + 1 >= n {
                    assert(scan_args(texts, i as int, cur) is None);
                    return Command::Usage;
                }
                let value = chars_of(args[i + 1].as_str());
                assert(texts[i + 1] == value@);
                match parse_device_list(&value) {
                    Some(ds) => {
                        cuda_devices = ds;
                    },
                    None => {
                        assert(scan_args(texts, i as int, cur) is None);
                        return Command::Usage;
                    },
                }
                i = i + 2;
            },
            ArgKind::Help => {
                assert(scan_args(texts, i as int, cur) is None);
                return Command::Usage;
            },
            ArgKind::Positional => {
                let ghost before = arg_texts(positional@);
                positional.push(args[i].clone());
                assert(arg_texts(positional@) =~= before.push(texts[i as int]));
                i = i + 1;
            },
        }
    }
    let ghost fin = arg_texts(positional@);
    assert(scan_args(texts, n as int, (workers, cuda_enabled, cuda_devices@, fin)) == Some::<ArgState>((workers, cuda_enabled, cuda_devices@, fin)));
    if positional.len() != 2 {
        return Command::Usage;
    }
    let wallet_hex = positional.pop().unwrap();
    let node = positional.pop().unwrap();
    assert(fin[1] == wallet_hex@ && fin[0] == node@);
    if wallet_hex.as_str().as_bytes().len() != WALLET_HEX_LEN {
        return Command::Usage;
    }
    assert(fin =~= seq![node@, wallet_hex@]);
    Command::Run(MinerOptions { workers, cuda_enabled, cuda_devices, node, wallet_hex })
}

} // verus!
