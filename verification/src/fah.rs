//! Folding@home processes: the client and the cores it runs.

use crate::order::{sort_by_key, sort_stable, Keyed, KeyedExec};
use crate::text::{
    decimal_usize, first_index, lemma_first_index, lemma_first_index_at, lemma_first_index_none,
    parse_usize, same_text, split, split_char, trim, trim_text, views,
};
use vstd::prelude::*;

verus! {

/// A running Folding@home core: its process id and the number of threads it was started with.
#[derive(Debug)]
pub struct FahCore {
    pub pid: usize,
    pub threads: usize,
}

impl Keyed for FahCore {
    open spec fn key(&self) -> int {
        self.threads as int
    }
}

impl KeyedExec for FahCore {
    fn exec_key(&self) -> (k: usize) {
        self.threads
    }
}

/// The running Folding@home client.
pub struct FahClient {
    pid: usize,
}

impl FahClient {
    /// The process id of the client.
    pub closed spec fn spec_pid(&self) -> usize {
        self.pid
    }

    /// The client running as process `pid`.
    pub fn from_pid(pid: usize) -> (c: Self)
        ensures
            c.spec_pid() == pid,
    {
        FahClient { pid }
    }

    /// The process id of the client.
    pub fn pid(&self) -> (p: usize)
        ensures
            p == self.spec_pid(),
    {
        self.pid
    }
}

/// The process id that a `/proc` entry name writes, if it is a number.
pub fn parse_pid(name: &str) -> (r: Option<usize>)
    ensures
        r == decimal_usize(name@),
{
    match parse_usize(name) {
        Ok(pid) => Some(pid),
        Err(_) => None,
    }
}

/// The fields of a process command line, which NUL characters separate.
pub open spec fn fields_of(cmdline: Seq<char>) -> Seq<Seq<char>> {
    split_char(cmdline, '\0')
}

/// The file name of the program that a command line runs: its first field after the last `/`.
pub open spec fn basename_of(cmdline: Seq<char>) -> Seq<char> {
    split_char(fields_of(cmdline)[0], '/').last()
}

/// The arguments of a command line: the fields after the first.
pub open spec fn args_of(cmdline: Seq<char>) -> Seq<Seq<char>> {
    fields_of(cmdline).drop_first()
}

/// `split` gives at least one piece.
proof fn lemma_split_nonempty(s: Seq<char>, c: char)
    ensures
        split_char(s, c).len() >= 1,
{
    lemma_first_index(s, c);
    match first_index(s, c) {
        None => {},
        Some(i) => {
            assert(split_char(s, c) == seq![s.take(i)] + split_char(s.skip(i + 1), c));
        },
    }
}

/// The program's file name and the arguments of a command line.
pub fn extract_basename<'a>(cmdline: &'a str) -> (r: Option<(&'a str, Vec<&'a str>)>)
    ensures
        r matches Some((b, args)) && b@ == basename_of(cmdline@) && views(args@) == args_of(
            cmdline@,
        ),
{
    let fields = split(cmdline, '\0');
    proof {
        lemma_split_nonempty(cmdline@, '\0');
    }
    let program = fields[0];
    let parts = split(program, '/');
    proof {
        lemma_split_nonempty(program@, '/');
        assert(views(parts@).last() == parts@[parts@.len() - 1]@);
    }
    let basename = parts[parts.len() - 1];
    let mut args: Vec<&'a str> = Vec::new();
    let mut i: usize = 1;
    let ghost fs = views(fields@);
    proof {
        assert(views(args@) =~= fs.subrange(1, 1));
    }
    while i < fields.len()
        invariant
            1 <= i <= fields@.len(),
            fs == views(fields@),
            views(args@) == fs.subrange(1, i as int),
        decreases fields@.len() - i,
    {
        let ghost before = args@;
        args.push(fields[i]);
        proof {
            assert(views(args@) =~= views(before).push(fields@[i as int]@));
            assert(fs.subrange(1, i + 1) =~= fs.subrange(1, i as int).push(fs[i as int]));
        }
        i += 1;
    }
    proof {
        assert(fs.subrange(1, i as int) =~= fs.drop_first());
    }
    Some((basename, args))
}

/// The program name of the client.
pub open spec fn client_name() -> Seq<char> {
    "fah-client"@
}

/// Whether a command line runs the Folding@home client.
pub open spec fn runs_client(cmdline: Seq<char>) -> bool {
    basename_of(cmdline) == client_name()
}

/// Whether a command line runs the Folding@home client.
pub fn is_fah_client(cmdline: &str) -> (r: bool)
    ensures
        r == runs_client(cmdline@),
{
    let (basename, _) = extract_basename(cmdline).unwrap();
    same_text(basename, "fah-client")
}

/// The process id of the first process, given as process id and command line, that runs the
/// client.
pub open spec fn first_client_of(procs: Seq<(usize, Seq<char>)>) -> Option<usize>
    decreases procs.len(),
{
    if procs.len() == 0 {
        None
    } else if runs_client(procs[0].1) {
        Some(procs[0].0)
    } else {
        first_client_of(procs.drop_first())
    }
}

/// The client found is the first listed process that runs it, and none is found only where no
/// listed process runs it.
pub proof fn law_first_client(procs: Seq<(usize, Seq<char>)>)
    ensures
        forall|i: int|
            0 <= i < procs.len() && runs_client(#[trigger] procs[i].1) && (forall|j: int|
                0 <= j < i ==> !runs_client(procs[j].1)) ==> first_client_of(procs) == Some(
                procs[i].0,
            ),
        (forall|i: int| 0 <= i < procs.len() ==> !runs_client(#[trigger] procs[i].1))
            ==> first_client_of(procs) is None,
    decreases procs.len(),
{
    if procs.len() > 0 {
        let d = procs.drop_first();
        law_first_client(d);
        assert forall|i: int|
            0 <= i < procs.len() && runs_client(#[trigger] procs[i].1) && (forall|j: int|
                0 <= j < i ==> !runs_client(procs[j].1)) implies first_client_of(procs) == Some(
            procs[i].0,
        ) by {
            if i > 0 {
                assert(!runs_client(procs[0].1));
                assert(d[i - 1] == procs[i]);
                assert forall|j: int| 0 <= j < i - 1 implies !runs_client(d[j].1) by {
                    assert(d[j] == procs[j + 1]);
                }
            }
        }
        if forall|i: int| 0 <= i < procs.len() ==> !runs_client(#[trigger] procs[i].1) {
            assert(!runs_client(procs[0].1));
            assert forall|i: int| 0 <= i < d.len() implies !runs_client(#[trigger] d[i].1) by {
                assert(d[i] == procs[i + 1]);
            }
        }
    }
}

/// The client among the processes, given as process id and command line in the order they were
/// listed: the first one that runs it.
pub fn find_client(procs: &[(usize, String)]) -> (r: Option<FahClient>)
    ensures
        match first_client_of(proc_views(procs@)) {
            Some(pid) => r matches Some(c) && c.spec_pid() == pid,
            None => r is None,
        },
{
    let ghost pv = proc_views(procs@);
    let mut i: usize = 0;
    proof {
        assert(pv.skip(0) =~= pv);
    }
    while i < procs.len()
        invariant
            i <= procs@.len(),
            pv == proc_views(procs@),
            first_client_of(pv) == first_client_of(pv.skip(i as int)),
        decreases procs@.len() - i,
    {
        let (pid, cmdline) = &procs[i];
        proof {
            assert(pv.skip(i as int)[0] == (procs@[i as int].0, procs@[i as int].1@));
            assert(pv.skip(i as int).drop_first() =~= pv.skip(i + 1));
        }
        if is_fah_client(cmdline.as_str()) {
            return Some(FahClient::from_pid(*pid));
        }
        i += 1;
    }
    proof {
        assert(pv.skip(i as int) =~= Seq::<(usize, Seq<char>)>::empty());
    }
    None
}

/// The program names of the cores that the balancer places.
pub open spec fn is_known_core(name: Seq<char>) -> bool {
    name == "FahCore_a8"@ || name == "FahCore_a9"@
}

/// The argument after the first `-np`, if there is one.
pub open spec fn threads_arg(args: Seq<Seq<char>>) -> Option<Seq<char>> {
    match first_index(args, "-np"@) {
        Some(i) => if i + 1 < args.len() {
            Some(args[i + 1])
        } else {
            None
        },
        None => None,
    }
}

/// The thread count of a core's command line: the program is a known core and the argument
/// after the first `-np` reads as a number.
pub open spec fn core_threads_of(cmdline: Seq<char>) -> Option<usize> {
    if is_known_core(basename_of(cmdline)) {
        match threads_arg(args_of(cmdline)) {
            Some(t) => decimal_usize(t),
            None => None,
        }
    } else {
        None
    }
}

/// A known core's thread count is the number after its first `-np`, wherever that is among the
/// arguments; without `-np`, or without an argument after it, or for another program, there is
/// none.
pub proof fn law_core_threads(cmdline: Seq<char>)
    ensures
        forall|i: int|
            0 <= i && i + 1 < args_of(cmdline).len() && #[trigger] args_of(cmdline)[i] == "-np"@
                && (forall|j: int| 0 <= j < i ==> args_of(cmdline)[j] != "-np"@) ==> core_threads_of(
                cmdline,
            ) == if is_known_core(basename_of(cmdline)) {
                decimal_usize(args_of(cmdline)[i + 1])
            } else {
                None
            },
        (forall|j: int| 0 <= j < args_of(cmdline).len() ==> args_of(cmdline)[j] != "-np"@)
            ==> core_threads_of(cmdline) is None,
        !is_known_core(basename_of(cmdline)) ==> core_threads_of(cmdline) is None,
{
    let args = args_of(cmdline);
    lemma_first_index(args, "-np"@);
    assert forall|i: int|
        0 <= i && i + 1 < args.len() && #[trigger] args[i] == "-np"@ && (forall|j: int|
            0 <= j < i ==> args[j] != "-np"@) implies threads_arg(args) == Some(args[i + 1]) by {
        lemma_first_index_at(args, "-np"@, i);
    }
}

/// The thread count of a core's command line, if it runs a known core with `-np N`.
pub fn core_threads(cmdline: &str) -> (r: Option<usize>)
    ensures
        r == core_threads_of(cmdline@),
{
    let (basename, args) = extract_basename(cmdline).unwrap();
    if !(same_text(basename, "FahCore_a8") || same_text(basename, "FahCore_a9")) {
        return None;
    }
    let ghost avs = views(args@);
    let mut i: usize = 0;
    while i < args.len()
        invariant
            i <= args@.len(),
            avs == views(args@),
            avs == args_of(cmdline@),
            is_known_core(basename_of(cmdline@)),
            forall|j: int| 0 <= j < i ==> avs[j] != "-np"@,
        decreases args@.len() - i,
    {
        if same_text(args[i], "-np") {
            proof {
                assert(avs[i as int] == args@[i as int]@);
                lemma_first_index_at(avs, "-np"@, i as int);
            }
            if i + 1 < args.len() {
                return match parse_usize(args[i + 1]) {
                    Ok(threads) => Some(threads),
                    Err(_) => None,
                };
            }
            return None;
        }
        proof {
            assert(avs[i as int] == args@[i as int]@);
        }
        i += 1;
    }
    proof {
        lemma_first_index_none(avs, "-np"@);
    }
    None
}

/// The numbers among the texts, in order.
pub open spec fn numbers_of(ps: Seq<Seq<char>>) -> Seq<usize>
    decreases ps.len(),
{
    if ps.len() == 0 {
        Seq::empty()
    } else {
        let rest = numbers_of(ps.drop_last());
        match decimal_usize(ps.last()) {
            Some(v) => rest.push(v),
            None => rest,
        }
    }
}

/// A number is read exactly where some text reads as it.
pub proof fn law_numbers_of(ps: Seq<Seq<char>>)
    ensures
        forall|v: usize| #[trigger] numbers_of(ps).contains(v) <==> exists|k: int|
            0 <= k < ps.len() && decimal_usize(ps[k]) == Some(v),
        numbers_of(ps).len() <= ps.len(),
    decreases ps.len(),
{
    if ps.len() > 0 {
        let d = ps.drop_last();
        let l = ps.len() - 1;
        law_numbers_of(d);
        assert(ps[l] == ps.last());
        assert forall|v: usize| #[trigger] numbers_of(ps).contains(v) <==> exists|k: int|
            0 <= k < ps.len() && decimal_usize(ps[k]) == Some(v) by {
            let r = numbers_of(d);
            if r.contains(v) {
                let i = choose|i: int| 0 <= i < r.len() && r[i] == v;
                assert(numbers_of(ps)[i] == v);
                let k = choose|k: int| 0 <= k < d.len() && decimal_usize(d[k]) == Some(v);
                assert(ps[k] == d[k]);
            }
            if decimal_usize(ps.last()) == Some(v) {
                assert(numbers_of(ps)[numbers_of(ps).len() - 1] == v);
            }
            if numbers_of(ps).contains(v) && !r.contains(v) {
                let i = choose|i: int| 0 <= i < numbers_of(ps).len() && numbers_of(ps)[i] == v;
                if decimal_usize(ps.last()) is Some && i < r.len() {
                    assert(r[i] == v);
                }
            }
            if exists|k: int| 0 <= k < ps.len() && decimal_usize(ps[k]) == Some(v) {
                let k = choose|k: int| 0 <= k < ps.len() && decimal_usize(ps[k]) == Some(v);
                if k < l {
                    assert(ps[k] == d[k]);
                }
            }
        }
    }
}

/// The process ids in a `children` file: the trimmed text split at spaces, pieces that do not
/// read as a number skipped.
pub fn child_pids(children: &str) -> (r: Vec<usize>)
    ensures
        r@ == numbers_of(split_char(trim_text(children@), ' ')),
{
    let pieces = split(trim(children), ' ');
    let ghost ps = views(pieces@);
    let mut pids: Vec<usize> = Vec::new();
    let mut i: usize = 0;
    proof {
        assert(ps.take(0) =~= Seq::<Seq<char>>::empty());
    }
    while i < pieces.len()
        invariant
            i <= pieces@.len(),
            ps == views(pieces@),
            pids@ == numbers_of(ps.take(i as int)),
        decreases pieces@.len() - i,
    {
        proof {
            assert(ps.take(i + 1).drop_last() =~= ps.take(i as int));
            assert(ps.take(i + 1).last() == pieces@[i as int]@);
        }
        match parse_usize(pieces[i]) {
            Ok(pid) => pids.push(pid),
            Err(_) => {},
        }
        i += 1;
    }
    proof {
        assert(ps.take(i as int) =~= ps);
    }
    pids
}

/// The cores among the processes, given as process id and command line, in order.
pub open spec fn cores_of(procs: Seq<(usize, Seq<char>)>) -> Seq<FahCore>
    decreases procs.len(),
{
    if procs.len() == 0 {
        Seq::empty()
    } else {
        let rest = cores_of(procs.drop_last());
        match core_threads_of(procs.last().1) {
            Some(t) => rest.push(FahCore { pid: procs.last().0, threads: t }),
            None => rest,
        }
    }
}

/// A core is listed exactly where a process with its id runs a known core with its thread
/// count.
pub proof fn law_cores_of(procs: Seq<(usize, Seq<char>)>)
    ensures
        forall|c: FahCore| #[trigger] cores_of(procs).contains(c) <==> exists|i: int|
            0 <= i < procs.len() && procs[i].0 == c.pid && core_threads_of(procs[i].1) == Some(
                c.threads,
            ),
    decreases procs.len(),
{
    if procs.len() > 0 {
        let d = procs.drop_last();
        let l = procs.len() - 1;
        law_cores_of(d);
        assert(procs[l] == procs.last());
        assert forall|c: FahCore| #[trigger] cores_of(procs).contains(c) <==> exists|i: int|
            0 <= i < procs.len() && procs[i].0 == c.pid && core_threads_of(procs[i].1) == Some(
                c.threads,
            ) by {
            let r = cores_of(d);
            let all = cores_of(procs);
            if r.contains(c) {
                let j = choose|j: int| 0 <= j < r.len() && r[j] == c;
                assert(all[j] == c);
                let i = choose|i: int|
                    0 <= i < d.len() && d[i].0 == c.pid && core_threads_of(d[i].1) == Some(c.threads);
                assert(procs[i] == d[i]);
            }
            if procs.last().0 == c.pid && core_threads_of(procs.last().1) == Some(c.threads) {
                assert(all[all.len() - 1] == c);
            }
            if all.contains(c) && !r.contains(c) {
                let j = choose|j: int| 0 <= j < all.len() && all[j] == c;
                if core_threads_of(procs.last().1) is Some && j < r.len() {
                    assert(r[j] == c);
                }
            }
            if exists|i: int|
                0 <= i < procs.len() && procs[i].0 == c.pid && core_threads_of(procs[i].1) == Some(
                    c.threads,
                ) {
                let i = choose|i: int|
                    0 <= i < procs.len() && procs[i].0 == c.pid && core_threads_of(procs[i].1) == Some(
                        c.threads,
                    );
                if i < l {
                    assert(procs[i] == d[i]);
                }
            }
        }
    }
}

/// The views of a list of processes given as process id and command line.
pub open spec fn proc_views(procs: Seq<(usize, String)>) -> Seq<(usize, Seq<char>)> {
    procs.map_values(|p: (usize, String)| (p.0, p.1@))
}

/// The known cores among the client's child processes, given as process id and command line,
/// sorted by thread count with equal counts kept in order: cores with more threads go last.
pub fn fah_cores(procs: &[(usize, String)]) -> (r: Vec<FahCore>)
    ensures
        r@ == sort_by_key(cores_of(proc_views(procs@))),
{
    let ghost pv = proc_views(procs@);
    let mut cores: Vec<FahCore> = Vec::new();
    let mut i: usize = 0;
    proof {
        assert(pv.take(0) =~= Seq::<(usize, Seq<char>)>::empty());
    }
    while i < procs.len()
        invariant
            i <= procs@.len(),
            pv == proc_views(procs@),
            cores@ == cores_of(pv.take(i as int)),
        decreases procs@.len() - i,
    {
        proof {
            assert(pv.take(i + 1).drop_last() =~= pv.take(i as int));
            assert(pv.take(i + 1).last() == (procs@[i as int].0, procs@[i as int].1@));
        }
        let (pid, cmdline) = &procs[i];
        match core_threads(cmdline.as_str()) {
            Some(threads) => cores.push(FahCore { pid: *pid, threads }),
            None => {},
        }
        i += 1;
    }
    proof {
        assert(pv.take(i as int) =~= pv);
    }
    sort_stable(&mut cores);
    cores
}

} // verus!
