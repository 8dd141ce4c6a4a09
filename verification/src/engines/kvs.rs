//! The log-structured storage engine.
//!
//! The store directory is a vector of log files; every mutation appends one
//! encoded command record to the active segment. The meaning of the
//! directory is given by replay: walking the segments in ascending
//! generation order and applying each record builds the index, and the index
//! in memory always equals that replay. Reads decode one record at the
//! location the index names; compaction copies every live record into a
//! fresh segment, re-points the index, and unlinks the old segments.

use vstd::prelude::*;
use crate::command::{
    parse_record, parse_stream, spec_encode, Command, RecAt, SpecCommand, decode_record, encode,
    lemma_parse_encode, lemma_record_bounds, lemma_record_window, lemma_stream_append,
};
use crate::error::KvsError;
use crate::index::{
    index_entries, index_get, index_insert, index_new, index_remove, index_view, CommandPos,
};
use crate::logfile::{
    distinct_gens, find_file, find_log_file, gens_bounded, has_gen, lemma_find_extend,
    lemma_find_same_names, parse_gen,
    lemma_find_log_file, lemma_gen_bound, lemma_parse_gen_name, log_path, parse_gen_name,
    sorted_gen_list, total_log_size, LogFile,
};
use crate::text::copy_range;
use crossbeam_skiplist::SkipMap;

verus! {

/// The compaction threshold: dead record bytes beyond this trigger
/// compaction.
pub const COMPACTION_THRESHOLD: u64 = 1048576;

/// One record applied to the index during replay.
pub open spec fn apply_rec(
    m: Map<Seq<char>, CommandPos>,
    gen: u64,
    r: RecAt,
) -> Map<Seq<char>, CommandPos> {
    match r.cmd {
        SpecCommand::Put { key, value } => m.insert(
            key,
            CommandPos { gen, pos: r.start as u64, len: (r.end - r.start) as u64 },
        ),
        SpecCommand::Remove { key } => m.remove(key),
    }
}

/// A record stream applied to the index in order.
pub open spec fn replay_recs(
    m: Map<Seq<char>, CommandPos>,
    gen: u64,
    recs: Seq<RecAt>,
) -> Map<Seq<char>, CommandPos>
    decreases recs.len(),
{
    if recs.len() == 0 {
        m
    } else {
        replay_recs(apply_rec(m, gen, recs[0]), gen, recs.skip(1))
    }
}

/// The index after replaying every segment of generation at most `g`, in
/// ascending order; `None` if some such segment is malformed.
pub open spec fn replay_upto(files: Seq<LogFile>, g: int) -> Option<Map<Seq<char>, CommandPos>>
    decreases g + 1
    when g >= -1
{
    if g < 0 {
        Some(Map::empty())
    } else {
        match replay_upto(files, g - 1) {
            None => None,
            Some(m) => match find_log_file(files, g as u64) {
                None => Some(m),
                Some(fi) => match parse_stream(files[fi].data@, 0) {
                    None => None,
                    Some(recs) => Some(replay_recs(m, g as u64, recs)),
                },
            },
        }
    }
}

/// The index that the whole directory denotes: the replay of every possible
/// generation.
pub open spec fn disk_index(files: Seq<LogFile>) -> Option<Map<Seq<char>, CommandPos>> {
    replay_upto(files, u64::MAX - 2)
}

/// The index entry of key `k` names a live, decodable `Set` record for `k`.
pub open spec fn entry_ok(files: Seq<LogFile>, k: Seq<char>, e: CommandPos) -> bool {
    &&& find_log_file(files, e.gen) is Some
    &&& {
        let fi = find_log_file(files, e.gen).unwrap();
        &&& 0 <= fi < files.len()
        &&& e.pos + e.len <= files[fi].data@.len()
        &&& e.len > 0
        &&& match parse_record(files[fi].data@, e.pos as int) {
            Some((c, end)) => end == e.pos + e.len && match c {
                SpecCommand::Put { key, value } => key == k,
                SpecCommand::Remove { .. } => false,
            },
            None => false,
        }
    }
}

/// The value of the record an index entry names.
pub open spec fn entry_value(files: Seq<LogFile>, e: CommandPos) -> Seq<char> {
    match find_log_file(files, e.gen) {
        Some(fi) => match parse_record(files[fi].data@, e.pos as int) {
            Some((c, end)) => match c {
                SpecCommand::Put { key, value } => value,
                SpecCommand::Remove { .. } => Seq::empty(),
            },
            None => Seq::empty(),
        },
        None => Seq::empty(),
    }
}

/// The key/value mapping an index denotes on a directory.
pub open spec fn index_kv(files: Seq<LogFile>, m: Map<Seq<char>, CommandPos>) -> Map<
    Seq<char>,
    Seq<char>,
> {
    Map::new(|k: Seq<char>| m.dom().contains(k), |k: Seq<char>| entry_value(files, m[k]))
}

// ---------------------------------------------------------------------------
// replay lemmas
// ---------------------------------------------------------------------------
/// Replaying one more record on the right applies it last.
pub proof fn lemma_replay_recs_push(
    m: Map<Seq<char>, CommandPos>,
    gen: u64,
    recs: Seq<RecAt>,
    r: RecAt,
)
    ensures
        replay_recs(m, gen, recs.push(r)) == apply_rec(replay_recs(m, gen, recs), gen, r),
    decreases recs.len(),
{
    if recs.len() == 0 {
        assert(recs.push(r)[0] == r);
        assert(recs.push(r).skip(1) =~= Seq::<RecAt>::empty());
        assert(replay_recs(m, gen, recs.push(r)) == replay_recs(apply_rec(m, gen, r), gen, Seq::<
            RecAt,
        >::empty()));
    } else {
        assert(recs.push(r)[0] == recs[0]);
        assert(recs.push(r).skip(1) =~= recs.skip(1).push(r));
        lemma_replay_recs_push(apply_rec(m, gen, recs[0]), gen, recs.skip(1), r);
    }
}

/// Two directories that agree on where every generation up to `g` lies and
/// what it holds replay alike up to `g`.
pub proof fn lemma_replay_agree(files: Seq<LogFile>, files2: Seq<LogFile>, g: int)
    requires
        g >= -1,
        forall|h: u64| 0 <= h <= g ==> #[trigger] find_log_file(files2, h) == find_log_file(
            files,
            h,
        ),
        forall|h: u64|
            0 <= h <= g ==> match #[trigger] find_log_file(files, h) {
                Some(fi) => files2[fi].data@ == files[fi].data@,
                None => true,
            },
    ensures
        replay_upto(files2, g) == replay_upto(files, g),
    decreases g + 1,
{
    if g >= 0 {
        lemma_replay_agree(files, files2, g - 1);
        let h = g as u64;
        assert(find_log_file(files2, h) == find_log_file(files, h));
        match find_log_file(files, h) {
            None => {},
            Some(fi) => {
                assert(files2[fi].data@ == files[fi].data@);
            },
        }
    }
}

/// Replay ignores every generation in a span with no segment files.
pub proof fn lemma_replay_skip(files: Seq<LogFile>, a: int, b: int)
    requires
        -1 <= a <= b <= u64::MAX,
        forall|h: u64| a < h <= b ==> #[trigger] find_log_file(files, h) is None,
    ensures
        replay_upto(files, b) == replay_upto(files, a),
    decreases b - a,
{
    if b > a {
        lemma_replay_skip(files, a, b - 1);
        assert(find_log_file(files, b as u64) is None);
    }
}

/// A failed replay stays failed at every later generation.
pub proof fn lemma_replay_poison(files: Seq<LogFile>, a: int, b: int)
    requires
        -1 <= a <= b,
        replay_upto(files, a) is None,
    ensures
        replay_upto(files, b) is None,
    decreases b - a,
{
    if b > a {
        lemma_replay_poison(files, a, b - 1);
    }
}

/// Appending one whole record to the segment of generation `g` applies that
/// record on top of the whole replay, provided no generation above `g` up to
/// `top` contributes anything.
pub proof fn lemma_replay_extend(
    files: Seq<LogFile>,
    files2: Seq<LogFile>,
    fi: int,
    g: u64,
    top: int,
    c: SpecCommand,
    e: Seq<char>,
)
    requires
        distinct_gens(files),
        find_log_file(files, g) == Some(fi),
        0 <= fi < files.len(),
        g <= top <= u64::MAX,
        files2.len() == files.len(),
        forall|i: int| 0 <= i < files.len() ==> files2[i].name@ == files[i].name@,
        forall|i: int| 0 <= i < files.len() && i != fi ==> files2[i] == files[i],
        files2[fi].data@ == files[fi].data@ + e,
        e.len() > 0,
        parse_stream(files[fi].data@, 0) is Some,
        parse_record(files2[fi].data@, files[fi].data@.len() as int) == Some(
            (c, files2[fi].data@.len() as int),
        ),
        forall|h: u64|
            g < h <= top ==> match #[trigger] find_log_file(files, h) {
                Some(fj) => parse_stream(files[fj].data@, 0) matches Some(r2) && r2.len() == 0,
                None => true,
            },
        replay_upto(files, top) is Some,
    ensures
        replay_upto(files2, top) == Some(
            apply_rec(
                replay_upto(files, top).unwrap(),
                g,
                RecAt {
                    cmd: c,
                    start: files[fi].data@.len() as int,
                    end: files2[fi].data@.len() as int,
                },
            ),
        ),
    decreases top - g,
{
    lemma_find_same_names(files, files2);
    let d0 = files[fi].data@;
    let rec = RecAt { cmd: c, start: d0.len() as int, end: files2[fi].data@.len() as int };
    if top == g {
        let prev = replay_upto(files, top - 1);
        assert(prev is Some);
        // everything below `g` is untouched
        assert forall|h: u64|
            0 <= h <= top - 1 implies match #[trigger] find_log_file(files, h) {
            Some(fj) => files2[fj].data@ == files[fj].data@,
            None => true,
        } by {
            match find_log_file(files, h) {
                Some(fj) => {
                    assert(has_gen(files, fj, h));
                    if fj == fi {
                        assert(has_gen(files, fi, g));
                        assert(false);
                    }
                    assert(files2[fj] == files[fj]);
                },
                None => {},
            }
        }
        lemma_replay_agree(files, files2, top - 1);
        let recs0 = parse_stream(d0, 0).unwrap();
        lemma_stream_append(d0, 0, e, c);
        assert(parse_stream(files2[fi].data@, 0) == Some(recs0 + seq![rec]));
        assert(recs0 + seq![rec] =~= recs0.push(rec));
        lemma_replay_recs_push(prev.unwrap(), g, recs0, rec);
    } else {
        let prev = replay_upto(files, top - 1);
        assert(prev is Some);
        lemma_replay_extend(files, files2, fi, g, top - 1, c, e);
        let h = top as u64;
        assert(g < h <= top);
        match find_log_file(files, h) {
            None => {},
            Some(fj) => {
                assert(has_gen(files, fj, h));
                if fj == fi {
                    assert(has_gen(files, fi, g));
                    assert(false);
                }
                assert(files2[fj] == files[fj]);
                let r2 = parse_stream(files[fj].data@, 0).unwrap();
                assert(r2.len() == 0);
                assert(replay_recs(replay_upto(files, top - 1).unwrap(), h, r2) == replay_upto(
                    files,
                    top - 1,
                ).unwrap());
                assert(replay_recs(replay_upto(files2, top - 1).unwrap(), h, r2) == replay_upto(
                    files2,
                    top - 1,
                ).unwrap());
            },
        }
    }
}

/// Segment bytes add up over a split of the directory.
proof fn lemma_total_size_concat(a: Seq<LogFile>, b: Seq<LogFile>)
    ensures
        total_log_size(a + b) == total_log_size(a) + total_log_size(b),
    decreases a.len(),
{
    if a.len() == 0 {
        assert(a + b =~= b);
    } else {
        assert((a + b)[0] == a[0]);
        assert((a + b).drop_first() =~= a.drop_first() + b);
        lemma_total_size_concat(a.drop_first(), b);
    }
}

/// Foreign files contribute no segment bytes.
proof fn lemma_total_size_strays(a: Seq<LogFile>)
    requires
        forall|i: int| 0 <= i < a.len() ==> parse_gen_name(#[trigger] a[i].name@) is None,
    ensures
        total_log_size(a) == 0,
    decreases a.len(),
{
    if a.len() > 0 {
        assert(parse_gen_name(a[0].name@) is None);
        assert(forall|i: int|
            0 <= i < a.drop_first().len() ==> parse_gen_name(
                #[trigger] a.drop_first()[i].name@,
            ) is None) by {
            assert(forall|i: int| 0 <= i < a.drop_first().len() ==> a.drop_first()[i] == a[i + 1]);
        }
        lemma_total_size_strays(a.drop_first());
    }
}

// ---------------------------------------------------------------------------
// the store
// ---------------------------------------------------------------------------
/// Saturating addition on the dead-byte counter.
pub open spec fn sat_add(a: u64, b: u64) -> u64 {
    if a + b > u64::MAX {
        u64::MAX
    } else {
        (a + b) as u64
    }
}

/// The shape of a freshly compacted store: besides foreign files, the
/// directory holds exactly one segment — one `Set` record per live key,
/// back to back, replaying to the index — and an empty active segment, so
/// the bytes on disk are exactly the live record bytes.
pub open spec fn compacted_shape(s: KvStore) -> bool {
    &&& s.files@.len() >= 2
    &&& ({
        let comp = s.files@[s.files@.len() - 2];
        let active = s.files@.last();
        &&& parse_gen_name(comp.name@) == Some((s.cur_gen - 1) as u64)
        &&& parse_gen_name(active.name@) == Some(s.cur_gen)
        &&& active.data@.len() == 0
        &&& total_log_size(s.files@) == comp.data@.len()
        &&& (match parse_stream(comp.data@, 0) {
            Some(recs) => {
                &&& forall|a: int| 0 <= a < recs.len() ==> (#[trigger] recs[a].cmd) is Put
                &&& replay_recs(Map::empty(), (s.cur_gen - 1) as u64, recs) == s.index_map()
            },
            None => false,
        })
        // the active generation lies strictly above everything the index
        // references
        &&& forall|k: Seq<char>|
            #[trigger] s.index_map().dom().contains(k) ==> s.index_map()[k].gen == (s.cur_gen
                - 1) as u64
    })
}
/// A reader of the store: the safe-point watermark it has observed and the
/// generations whose handles it holds open.
pub struct KvStoreReader {
    /// The smallest generation any compaction has produced; handles to
    /// generations below it are stale.
    pub safe_point: u64,
    /// The generations with an open, cached handle.
    pub open_gens: Vec<u64>,
}

impl KvStoreReader {
    /// Drops every cached handle whose generation lies below the safe point;
    /// compaction has unlinked those segments or soon will.
    fn close_stale_handles(&mut self)
        ensures
            final(self).safe_point == old(self).safe_point,
            final(self).open_gens@ == old(self).open_gens@.filter(
                |g: u64| g >= old(self).safe_point,
            ),
    {
        let mut kept: Vec<u64> = Vec::new();
        let mut i: usize = 0;
        proof {
            assert(self.open_gens@.take(0) =~= Seq::<u64>::empty());
            assert(kept@ =~= self.open_gens@.take(0).filter(|g: u64| g >= self.safe_point));
        }
        while i < self.open_gens.len()
            invariant
                i <= self.open_gens.len(),
                kept@ == old(self).open_gens@.take(i as int).filter(
                    |g: u64| g >= old(self).safe_point,
                ),
                self.safe_point == old(self).safe_point,
                self.open_gens@ == old(self).open_gens@,
            decreases self.open_gens.len() - i,
        {
            let g = self.open_gens[i];
            if g >= self.safe_point {
                kept.push(g);
            }
            proof {
                let pre = self.open_gens@.take(i as int);
                assert(self.open_gens@.take(i + 1).drop_last() =~= pre);
                assert(self.open_gens@.take(i + 1).last() == g);
                assert(self.open_gens@.take(i + 1) =~= pre.push(g));
                lemma_filter_push(pre, g, |g2: u64| g2 >= old(self).safe_point);
                assert(kept@ =~= self.open_gens@.take(i + 1).filter(
                    |g2: u64| g2 >= old(self).safe_point,
                ));
            }
            i = i + 1;
        }
        proof {
            assert(self.open_gens@.take(self.open_gens@.len() as int) =~= self.open_gens@);
        }
        self.open_gens = kept;
    }
}

impl KvStoreReader {
    /// Reads and decodes the one record an index entry names: evicts stale
    /// handles, notes a handle for the entry's generation, seeks to the
    /// entry and decodes a single record bounded by its length.
    fn read_command(&mut self, files: &Vec<LogFile>, e: CommandPos) -> (r: Result<
        Command,
        KvsError,
    >)
        requires
            distinct_gens(files@),
            find_log_file(files@, e.gen) is Some,
            ({
                let fi = find_log_file(files@, e.gen).unwrap();
                &&& 0 <= fi < files@.len()
                &&& e.pos + e.len <= files@[fi].data@.len()
                &&& (match parse_record(files@[fi].data@, e.pos as int) {
                    Some((c, end)) => end == e.pos + e.len,
                    None => false,
                })
            }),
        ensures
            final(self).safe_point == old(self).safe_point,
            (match r {
                Ok(cmd) => parse_record(
                    files@[find_log_file(files@, e.gen).unwrap()].data@,
                    e.pos as int,
                ) == Some((cmd@, e.pos + e.len)),
                Err(_) => false,
            }),
    {
        self.close_stale_handles();
        let mut have: bool = false;
        let mut i: usize = 0;
        while i < self.open_gens.len()
            invariant
                i <= self.open_gens.len(),
            decreases self.open_gens.len() - i,
        {
            if self.open_gens[i] == e.gen {
                have = true;
            }
            i = i + 1;
        }
        if !have {
            self.open_gens.push(e.gen);
        }
        let fi = match find_file(files, e.gen) {
            Some(fi) => fi,
            None => {
                proof {
                    assert(false);
                }
                return Err(KvsError::Io);
            },
        };
        let file = &files[fi];
        proof {
            assert(e.pos <= file.data@.len());
        }
        match decode_record(&file.data, e.pos as usize) {
            Some((cmd, end)) => Ok(cmd),
            None => {
                proof {
                    assert(false);
                }
                Err(KvsError::Serde)
            },
        }
    }
}

/// Filtering past one more element keeps it exactly when it passes.
proof fn lemma_filter_push(s: Seq<u64>, x: u64, p: spec_fn(u64) -> bool)
    ensures
        s.push(x).filter(p) == if p(x) {
            s.filter(p).push(x)
        } else {
            s.filter(p)
        },
    decreases s.len(),
{
    assert(s.push(x).drop_last() =~= s);
    assert(s.push(x).last() == x);
    reveal_with_fuel(Seq::filter, 2);
}

/// The log-structured store: the directory model, the index, the reader
/// state, the active generation and the dead-byte counter. All mutation goes
/// through `set`, `remove` and the compaction they trigger.
pub struct KvStore {
    /// The files of the store directory.
    pub files: Vec<LogFile>,
    /// The index: each live key and the location of its current record.
    pub index: SkipMap<String, CommandPos>,
    /// The reader state: safe point and cached handles.
    pub reader: KvStoreReader,
    /// The active generation.
    pub cur_gen: u64,
    /// Dead record bytes not yet reclaimed by compaction.
    pub uncompacted: u64,
}

impl KvStore {
    /// The contents of the in-memory index.
    pub open spec fn index_map(self) -> Map<Seq<char>, CommandPos> {
        index_view(self.index)
    }

    /// The key/value mapping the store holds.
    pub open spec fn kv(self) -> Map<Seq<char>, Seq<char>> {
        index_kv(self.files@, self.index_map())
    }

    /// The directory model.
    pub open spec fn spec_files(self) -> Seq<LogFile> {
        self.files@
    }

    /// The active generation.
    pub open spec fn spec_cur_gen(self) -> u64 {
        self.cur_gen
    }

    /// The safe-point watermark.
    pub open spec fn spec_safe_point(self) -> u64 {
        self.reader.safe_point
    }

    /// Well-formedness: generations are unique and at most the active one,
    /// the active segment exists, every index entry names a live `Set`
    /// record of its key, and the index equals the replay of the directory.
    pub open spec fn wf(self) -> bool {
        &&& distinct_gens(self.files@)
        &&& 1 <= self.cur_gen < u64::MAX - 1
        &&& find_log_file(self.files@, self.cur_gen) is Some
        &&& forall|i: int, g: u64| has_gen(self.files@, i, g) ==> g <= self.cur_gen
        &&& forall|k: Seq<char>|
            #[trigger] self.index_map().dom().contains(k) ==> entry_ok(
                self.files@,
                k,
                self.index_map()[k],
            )
        &&& replay_upto(self.files@, self.cur_gen as int) == Some(self.index_map())
        &&& self.index_map().dom().finite()
        &&& self.reader.safe_point <= self.cur_gen
    }

    /// The files of the store directory.
    pub fn files(&self) -> (r: &Vec<LogFile>)
        ensures
            r@ == self.spec_files(),
    {
        &self.files
    }

    /// The active generation number.
    pub fn current_gen(&self) -> (r: u64)
        ensures
            r == self.spec_cur_gen(),
    {
        self.cur_gen
    }

    /// Returns the current value of a key, or `None` if the key is absent.
    ///
    /// Reads never fail on a well-formed store: the index names only live,
    /// decodable records. Only the reader's handle cache changes.
    pub fn get(&mut self, key: String) -> (r: Result<Option<String>, KvsError>)
        requires
            old(self).wf(),
        ensures
            final(self).wf(),
            r is Ok,
            final(self).kv() == old(self).kv(),
            final(self).spec_files() == old(self).spec_files(),
            final(self).index_map() == old(self).index_map(),
            final(self).spec_cur_gen() == old(self).spec_cur_gen(),
            final(self).spec_safe_point() == old(self).spec_safe_point(),
            final(self).uncompacted == old(self).uncompacted,
            (match r {
                Ok(v) => match v {
                    Some(value) => old(self).kv().dom().contains(key@) && old(self).kv()[key@]
                        == value@,
                    None => !old(self).kv().dom().contains(key@),
                },
                Err(_) => false,
            }),
    {
        let e = match index_get(&self.index, &key) {
            None => {
                return Ok(None);
            },
            Some(e) => e,
        };
        proof {
            assert(entry_ok(self.files@, key@, e));
        }
        let cmd = match self.reader.read_command(&self.files, e) {
            Ok(c) => c,
            Err(err) => {
                proof {
                    assert(false);
                }
                return Err(err);
            },
        };
        match cmd {
            Command::Put { key: k2, value } => {
                proof {
                    let fi = find_log_file(self.files@, e.gen).unwrap();
                    assert(entry_value(self.files@, e) == value@);
                    assert(self.kv()[key@] == value@);
                }
                Ok(Some(value))
            },
            Command::Remove { .. } => {
                proof {
                    assert(false);
                }
                Err(KvsError::UnexpectedCommandType)
            },
        }
    }

    /// Encodes one command, appends it to the active segment, and applies it
    /// to the index. Returns the record's start and end offsets.
    fn append_and_index(&mut self, cmd: Command) -> (r: (usize, usize))
        requires
            old(self).wf(),
        ensures
            final(self).wf(),
            final(self).spec_cur_gen() == old(self).spec_cur_gen(),
            final(self).spec_safe_point() == old(self).spec_safe_point(),
            final(self).uncompacted == old(self).uncompacted,
            final(self).reader == old(self).reader,
            r.0 <= r.1,
            r.1 - r.0 == spec_encode(cmd@).len(),
            final(self).spec_files().len() == old(self).spec_files().len(),
            (match cmd@ {
                SpecCommand::Put { key, value } => {
                    &&& final(self).index_map() == old(self).index_map().insert(
                        key,
                        CommandPos {
                            gen: old(self).spec_cur_gen(),
                            pos: r.0 as u64,
                            len: (r.1 - r.0) as u64,
                        },
                    )
                    &&& final(self).kv() == old(self).kv().insert(key, value)
                },
                SpecCommand::Remove { key } => {
                    &&& final(self).index_map() == old(self).index_map().remove(key)
                    &&& final(self).kv() == old(self).kv().remove(key)
                },
            }),
    {
        let ghost files0 = self.files@;
        let ghost view0 = index_view(self.index);
        let ghost cmdv = cmd@;
        let cur = self.cur_gen;
        let mut enc = encode(&cmd);
        let ghost encv = enc@;
        let fi = match find_file(&self.files, cur) {
            Some(fi) => fi,
            None => {
                proof {
                    assert(false);
                }
                0
            },
        };
        let ghost d0 = self.files@[fi as int].data@;
        proof {
            assert(find_log_file(files0, cur) == Some(fi as int));
            assert(replay_upto(files0, cur as int) == Some(view0));
            let prev = replay_upto(files0, cur as int - 1);
            assert(prev is Some);
            assert(parse_stream(d0, 0) is Some);
        }
        let pre = self.files[fi].data.len();
        self.files[fi].data.append(&mut enc);
        let post = self.files[fi].data.len();
        let entry = CommandPos { gen: cur, pos: pre as u64, len: (post - pre) as u64 };
        proof {
            let files2 = self.files@;
            assert(files2 == files0.update(fi as int, files2[fi as int]));
            assert(files2[fi as int].name@ == files0[fi as int].name@);
            assert(files2[fi as int].data@ == d0 + encv);
            assert forall|i: int| 0 <= i < files0.len() implies files2[i].name@
                == files0[i].name@ by {
                if i != fi {
                    assert(files2[i] == files0[i]);
                }
            }
            lemma_find_same_names(files0, files2);
            // the appended record decodes at its offset
            lemma_parse_encode(cmdv, d0, Seq::empty());
            assert(d0 + spec_encode(cmdv) + Seq::<char>::empty() =~= d0 + encv);
            assert(parse_record(d0 + encv, d0.len() as int) == Some(
                (cmdv, d0.len() as int + encv.len()),
            ));
            lemma_record_bounds(d0 + encv, d0.len() as int);
            assert(encv.len() > 0);
            lemma_stream_append(d0, 0, encv, cmdv);
            let recs0 = parse_stream(d0, 0).unwrap();
            let rec = RecAt { cmd: cmdv, start: d0.len() as int, end: (d0 + encv).len() as int };
            assert(parse_stream(d0 + encv, 0) == Some(recs0 + seq![rec]));
            // replay of everything below the active generation is untouched
            assert forall|h: u64|
                0 <= h <= cur as int - 1 implies match #[trigger] find_log_file(files0, h) {
                Some(fj) => files2[fj].data@ == files0[fj].data@,
                None => true,
            } by {
                match find_log_file(files0, h) {
                    Some(fj) => {
                        lemma_find_log_file(files0, fi as int, cur);
                        assert(has_gen(files0, fj, h));
                        if fj == fi as int {
                            assert(has_gen(files0, fj, cur));
                            assert(false);
                        }
                        assert(files2[fj] == files0[fj]);
                    },
                    None => {},
                }
            }
            lemma_replay_agree(files0, files2, cur as int - 1);
            let m_prev = replay_upto(files0, cur as int - 1).unwrap();
            assert(recs0 + seq![rec] =~= recs0.push(rec));
            lemma_replay_recs_push(m_prev, cur, recs0, rec);
            assert(replay_upto(files0, cur as int) == Some(replay_recs(m_prev, cur, recs0)));
            assert(replay_upto(files2, cur as int) == Some(apply_rec(view0, cur, rec)));
            assert(pre == d0.len() && post == d0.len() + encv.len());
        }
        match cmd {
            Command::Put { key, value: _ } => {
                index_insert(&mut self.index, key, entry);
            },
            Command::Remove { key } => {
                let _ = index_remove(&mut self.index, &key);
            },
        }
        proof {
            let files2 = self.files@;
            let rec = RecAt { cmd: cmdv, start: pre as int, end: post as int };
            let view1 = index_view(self.index);
            // the index now equals the replay of the extended directory
            match cmdv {
                SpecCommand::Put { key, value } => {
                    assert(view1 == view0.insert(key, entry));
                    assert(apply_rec(view0, cur, rec) == view0.insert(key, entry));
                },
                SpecCommand::Remove { key } => {
                    if view0.dom().contains(key) {
                        assert(view1 == view0.remove(key));
                    } else {
                        assert(view1 == view0);
                        assert(view1 =~= view0.remove(key));
                    }
                    assert(apply_rec(view0, cur, rec) == view0.remove(key));
                },
            }
            assert(replay_upto(files2, cur as int) == Some(view1));
            // every surviving entry still names its record
            assert forall|k: Seq<char>| #[trigger] view1.dom().contains(k) implies entry_ok(
                files2,
                k,
                view1[k],
            ) && entry_value(files2, view1[k]) == (match cmdv {
                SpecCommand::Put { key, value } => if k == key {
                    value
                } else {
                    entry_value(files0, view0[k])
                },
                SpecCommand::Remove { key } => entry_value(files0, view0[k]),
            }) by {
                let e = view1[k];
                let is_new = match cmdv {
                    SpecCommand::Put { key, value } => k == key,
                    SpecCommand::Remove { key } => false,
                };
                if is_new {
                    assert(e == CommandPos {
                        gen: cur,
                        pos: pre as u64,
                        len: (post - pre) as u64,
                    });
                    assert(find_log_file(files2, cur) == Some(fi as int));
                    assert(parse_record(files2[fi as int].data@, pre as int) == Some(
                        (cmdv, post as int),
                    ));
                } else {
                    assert(view0.dom().contains(k) && view0[k] == e);
                    assert(entry_ok(files0, k, e));
                    assert(find_log_file(files2, e.gen) == find_log_file(files0, e.gen));
                    let fj = find_log_file(files0, e.gen).unwrap();
                    if fj == fi as int {
                        // an older record of the active segment: the append
                        // did not touch its characters
                        assert(d0.subrange(e.pos as int, e.pos + e.len) =~= (d0
                            + encv).subrange(e.pos as int, e.pos + e.len));
                        let c0 = parse_record(d0, e.pos as int).unwrap().0;
                        lemma_record_window(
                            d0,
                            e.pos as int,
                            d0 + encv,
                            e.pos as int,
                            c0,
                            e.pos + e.len,
                        );
                        assert(parse_record(files2[fj].data@, e.pos as int) == Some(
                            (c0, e.pos + e.len),
                        ));
                    } else {
                        assert(files2[fj] == files0[fj]);
                    }
                }
            }
            // generations are unchanged, so the bound on them holds
            assert forall|i: int, g2: u64| has_gen(files2, i, g2) implies g2 <= cur by {
                assert(files2[i].name@ == files0[i].name@);
                assert(has_gen(files0, i, g2));
            }
            assert(self.wf());
            // the key/value mapping changes exactly as the command says
            match cmdv {
                SpecCommand::Put { key, value } => {
                    assert(self.kv() =~= index_kv(files0, view0).insert(key, value));
                },
                SpecCommand::Remove { key } => {
                    assert(self.kv() =~= index_kv(files0, view0).remove(key));
                },
            }
        }
        (pre, post)
    }

    /// Durably records the assignment of `value` to `key`: encodes a `Set`
    /// record, appends it to the active segment, counts any superseded
    /// record as dead, and re-points the index.
    pub fn set(&mut self, key: String, value: String) -> (r: Result<(), KvsError>)
        requires
            old(self).wf(),
        ensures
            final(self).wf(),
            r is Ok,
            final(self).kv() == old(self).kv().insert(key@, value@),
            final(self).spec_safe_point() >= old(self).spec_safe_point(),
            ({
                let grown = if old(self).index_map().dom().contains(key@) {
                    sat_add(old(self).uncompacted, old(self).index_map()[key@].len)
                } else {
                    old(self).uncompacted
                };
                if grown > COMPACTION_THRESHOLD && old(self).spec_cur_gen() < u64::MAX - 4 {
                    &&& final(self).uncompacted == 0
                    &&& final(self).spec_cur_gen() == old(self).spec_cur_gen() + 2
                    &&& final(self).spec_safe_point() == old(self).spec_cur_gen() + 1
                    &&& compacted_shape(*final(self))
                } else {
                    &&& final(self).uncompacted == grown
                    &&& final(self).spec_cur_gen() == old(self).spec_cur_gen()
                    &&& final(self).spec_safe_point() == old(self).spec_safe_point()
                }
            }),
    {
        let prior = index_get(&self.index, &key);
        let cmd = Command::set(key, value);
        let _span = self.append_and_index(cmd);
        match prior {
            Some(p) => {
                self.uncompacted = self.uncompacted.saturating_add(p.len);
            },
            None => {},
        }
        // compaction stops once the generation numbers run out; in practice
        // they never do
        if self.uncompacted > COMPACTION_THRESHOLD && self.cur_gen < u64::MAX - 4 {
            self.compact();
        }
        Ok(())
    }

    /// Durably records the removal of `key`, or fails with `KeyNotFound` and
    /// leaves the store untouched if the key is absent. A removed key's
    /// record and the removal marker itself both count as dead.
    pub fn remove(&mut self, key: String) -> (r: Result<(), KvsError>)
        requires
            old(self).wf(),
        ensures
            final(self).wf(),
            old(self).kv().dom().contains(key@) ==> r is Ok && final(self).kv() == old(
                self,
            ).kv().remove(key@),
            !old(self).kv().dom().contains(key@) ==> (r matches Err(e) && e
                == KvsError::KeyNotFound) && *final(self) == *old(self),
            final(self).spec_safe_point() >= old(self).spec_safe_point(),
            old(self).kv().dom().contains(key@) ==> ({
                let grown = sat_add(
                    sat_add(old(self).uncompacted, old(self).index_map()[key@].len),
                    spec_encode((SpecCommand::Remove { key: key@ })).len() as u64,
                );
                if grown > COMPACTION_THRESHOLD && old(self).spec_cur_gen() < u64::MAX - 4 {
                    &&& final(self).uncompacted == 0
                    &&& final(self).spec_cur_gen() == old(self).spec_cur_gen() + 2
                    &&& final(self).spec_safe_point() == old(self).spec_cur_gen() + 1
                    &&& compacted_shape(*final(self))
                } else {
                    &&& final(self).uncompacted == grown
                    &&& final(self).spec_cur_gen() == old(self).spec_cur_gen()
                    &&& final(self).spec_safe_point() == old(self).spec_safe_point()
                }
            }),
    {
        let prior = match index_get(&self.index, &key) {
            None => {
                return Err(KvsError::KeyNotFound);
            },
            Some(p) => p,
        };
        let cmd = Command::remove(key);
        let span = self.append_and_index(cmd);
        self.uncompacted = self.uncompacted.saturating_add(prior.len);
        self.uncompacted = self.uncompacted.saturating_add((span.1 - span.0) as u64);
        // compaction stops once the generation numbers run out; in practice
        // they never do
        if self.uncompacted > COMPACTION_THRESHOLD && self.cur_gen < u64::MAX - 4 {
            self.compact();
        }
        Ok(())
    }

    /// Clears dead records: copies every live record into a fresh
    /// compaction segment, re-points the index, opens a fresh active
    /// segment above it, publishes the safe point, evicts stale reader
    /// handles, and unlinks every older segment.
    #[verifier::rlimit(100)]
    fn compact(&mut self)
        requires
            old(self).wf(),
            old(self).spec_cur_gen() < u64::MAX - 4,
        ensures
            final(self).wf(),
            final(self).kv() == old(self).kv(),
            final(self).index_map().dom() == old(self).index_map().dom(),
            final(self).uncompacted == 0,
            final(self).spec_cur_gen() == old(self).spec_cur_gen() + 2,
            final(self).spec_safe_point() == old(self).spec_cur_gen() + 1,
            compacted_shape(*final(self)),
    {
        let ghost files00 = self.files@;
        let ghost view0 = index_view(self.index);
        let ghost kv0 = self.kv();
        let old_cur = self.cur_gen;
        let old_sp = self.reader.safe_point;
        // snapshot of the live entries
        let entries = index_entries(&self.index);
        proof {
            assert forall|a: int| 0 <= a < entries@.len() implies entries@[a].1.gen <= old_cur by {
                let e = entries@[a].1;
                assert(view0.dom().contains(entries@[a].0@));
                assert(entry_ok(files00, entries@[a].0@, e));
                let w = choose|i: int| has_gen(files00, i, e.gen);
                assert(has_gen(files00, w, e.gen));
            }
        }
        let comp_gen = old_cur + 1;
        let new_gen = old_cur + 2;
        let ci = self.files.len();
        proof {
            lemma_parse_gen_name(comp_gen);
            lemma_parse_gen_name(new_gen);
        }
        let comp_file = LogFile { name: log_path(comp_gen), data: Vec::new() };
        self.files.push(comp_file);
        let ai = self.files.len();
        let ghost files01 = self.files@;
        proof {
            // a fresh generation above everything present keeps lookups intact
            assert(files01 =~= files00.push(files01.last()));
            assert forall|i: int, j: int, g2: u64|
                has_gen(files01, i, g2) && has_gen(files01, j, g2) implies i == j by {
                if i < files00.len() && j < files00.len() {
                    assert(files01[i] == files00[i] && files01[j] == files00[j]);
                    assert(has_gen(files00, i, g2) && has_gen(files00, j, g2));
                } else if i == files00.len() && j < files00.len() {
                    assert(files01[j] == files00[j]);
                    assert(has_gen(files00, j, g2));
                    assert(g2 == comp_gen && g2 <= old_cur);
                } else if j == files00.len() && i < files00.len() {
                    assert(files01[i] == files00[i]);
                    assert(has_gen(files00, i, g2));
                    assert(g2 == comp_gen && g2 <= old_cur);
                }
            }
            assert(distinct_gens(files01));
            assert forall|h: u64| h != comp_gen implies #[trigger] find_log_file(files01, h)
                == find_log_file(files00, h) by {
                lemma_find_extend(files00, files01.last(), h);
            }
            assert(has_gen(files01, ci as int, comp_gen));
            lemma_find_log_file(files01, ci as int, comp_gen);
        }
        let active_file = LogFile { name: log_path(new_gen), data: Vec::new() };
        self.files.push(active_file);
        self.cur_gen = new_gen;
        let ghost files1 = self.files@;
        proof {
            assert(files1 =~= files01.push(files1.last()));
            assert forall|i: int, j: int, g2: u64|
                has_gen(files1, i, g2) && has_gen(files1, j, g2) implies i == j by {
                if i < files01.len() && j < files01.len() {
                    assert(files1[i] == files01[i] && files1[j] == files01[j]);
                    assert(has_gen(files01, i, g2) && has_gen(files01, j, g2));
                } else if i == files01.len() && j < files01.len() {
                    assert(files1[j] == files01[j]);
                    assert(has_gen(files01, j, g2));
                    if j < files00.len() {
                        assert(has_gen(files00, j, g2));
                        assert(g2 == new_gen && g2 <= old_cur);
                    }
                } else if j == files01.len() && i < files01.len() {
                    assert(files1[i] == files01[i]);
                    assert(has_gen(files01, i, g2));
                    if i < files00.len() {
                        assert(has_gen(files00, i, g2));
                        assert(g2 == new_gen && g2 <= old_cur);
                    }
                }
            }
            assert(distinct_gens(files1));
            assert forall|h: u64| h != new_gen implies #[trigger] find_log_file(files1, h)
                == find_log_file(files01, h) by {
                lemma_find_extend(files01, files1.last(), h);
            }
            assert(has_gen(files1, ai as int, new_gen));
            lemma_find_log_file(files1, ai as int, new_gen);
            // replay is unchanged below the two fresh, empty segments
            assert forall|h: u64|
                0 <= h <= old_cur implies #[trigger] find_log_file(files1, h) == find_log_file(
                files00,
                h,
            ) && (match find_log_file(files00, h) {
                Some(fj) => files1[fj].data@ == files00[fj].data@,
                None => true,
            }) by {
                match find_log_file(files00, h) {
                    Some(fj) => {
                        let w = choose|i: int| has_gen(files00, i, h);
                        assert(has_gen(files00, w, h));
                        assert(files1[fj] == files00[fj]);
                    },
                    None => {},
                }
            }
            lemma_replay_agree(files00, files1, old_cur as int);
            assert(parse_stream(files1[ci as int].data@, 0) == Some(Seq::<RecAt>::empty()));
            assert(parse_stream(files1[ai as int].data@, 0) == Some(Seq::<RecAt>::empty()));
            assert(replay_upto(files1, comp_gen as int) == Some(view0));
            assert(replay_upto(files1, new_gen as int) == Some(view0));
            // every index entry still names its record
            assert forall|k: Seq<char>| #[trigger] view0.dom().contains(k) implies entry_ok(
                files1,
                k,
                view0[k],
            ) && entry_value(files1, view0[k]) == entry_value(files00, view0[k]) by {
                let e = view0[k];
                assert(entry_ok(files00, k, e));
                let w = choose|i: int| has_gen(files00, i, e.gen);
                assert(has_gen(files00, w, e.gen));
                assert(e.gen <= old_cur);
                assert(find_log_file(files1, e.gen) == find_log_file(files00, e.gen));
                let fj = find_log_file(files00, e.gen).unwrap();
                assert(files1[fj] == files00[fj]);
            }
            assert forall|i: int, g2: u64| has_gen(files1, i, g2) implies g2 <= new_gen by {
                if i < files00.len() {
                    assert(files1[i] == files00[i]);
                    assert(has_gen(files00, i, g2));
                }
            }
            assert(self.wf());
            assert(self.kv() =~= kv0);
        }
        // copy each live record into the compaction segment
        let mut ei: usize = 0;
        let mut new_pos: usize = 0;
        let ghost mut comp_recs: Seq<RecAt> = Seq::empty();
        let ghost mut pmap: Map<Seq<char>, CommandPos> = Map::empty();
        while ei < entries.len()
            invariant
                self.wf(),
                self.cur_gen == new_gen,
                self.reader.safe_point == old_sp,
                self.uncompacted == old(self).uncompacted,
                old_cur < u64::MAX - 4,
                comp_gen == old_cur + 1,
                new_gen == old_cur + 2,
                ei <= entries@.len(),
                // the directory: the old files, the growing compaction
                // segment, the empty active segment
                self.files@.len() == files00.len() + 2,
                files1.len() == files00.len() + 2,
                ai == files00.len() + 1,
                ci == files00.len(),
                forall|i: int| 0 <= i < files00.len() ==> self.files@[i] == files00[i],
                self.files@[ai as int].data@.len() == 0,
                forall|i: int| 0 <= i < files1.len() ==> self.files@[i].name@ == files1[i].name@,
                find_log_file(self.files@, comp_gen) == Some(ci as int),
                find_log_file(self.files@, new_gen) == Some(ai as int),
                new_pos == self.files@[ci as int].data@.len(),
                parse_stream(self.files@[ci as int].data@, 0) == Some(comp_recs),
                replay_recs(Map::empty(), comp_gen, comp_recs) == pmap,
                forall|a: int| 0 <= a < comp_recs.len() ==> (#[trigger] comp_recs[a].cmd) is Put,
                // the snapshot
                forall|a: int|
                    #![trigger entries@[a]]
                    0 <= a < entries@.len() ==> view0.dom().contains(entries@[a].0@) && view0[
                        entries@[a].0@
                    ] == entries@[a].1 && entries@[a].1.gen <= old_cur,
                forall|a: int, b: int|
                    0 <= a < b < entries@.len() ==> entries@[a].0@ != entries@[b].0@,
                forall|k: Seq<char>|
                    view0.dom().contains(k) ==> exists|a: int|
                        0 <= a < entries@.len() && #[trigger] entries@[a].0@ == k,
                // what has been processed
                pmap.dom().finite(),
                forall|a: int|
                    #![trigger entries@[a]]
                    0 <= a < ei ==> pmap.dom().contains(entries@[a].0@),
                forall|k: Seq<char>|
                    #[trigger] pmap.dom().contains(k) ==> exists|a: int|
                        0 <= a < ei && #[trigger] entries@[a].0@ == k,
                forall|k: Seq<char>| #[trigger] pmap.dom().contains(k) ==> pmap[k].gen == comp_gen,
                // the live index: the snapshot with processed keys re-pointed
                index_view(self.index).dom() =~= view0.dom(),
                forall|k: Seq<char>|
                    #[trigger] view0.dom().contains(k) ==> index_view(self.index)[k] == if pmap.dom().contains(k) {
                        pmap[k]
                    } else {
                        view0[k]
                    },
                self.kv() == kv0,
            decreases entries@.len() - ei,
        {
            let key = entries[ei].0.clone();
            let e = entries[ei].1;
            let ghost files_cur = self.files@;
            let ghost view_cur = index_view(self.index);
            proof {
                assert(view0.dom().contains(key@) && view0[key@] == e);
                if pmap.dom().contains(key@) {
                    let a = choose|a: int| 0 <= a < ei && entries@[a].0@ == key@;
                    assert(entries@[a].0@ == entries@[ei as int].0@);
                    assert(false);
                }
                assert(view_cur[key@] == e);
                assert(entry_ok(files_cur, key@, e));
            }
            // read the live record
            let fj = match find_file(&self.files, e.gen) {
                Some(fj) => fj,
                None => {
                    proof {
                        assert(false);
                    }
                    0
                },
            };
            proof {
                assert(e.pos + e.len <= files_cur[fj as int].data@.len());
            }
            let chunk = {
                let src = &self.files[fj];
                let dlen = src.data.len();
                proof {
                    assert(e.pos + e.len <= dlen);
                    assert(e.pos as usize == e.pos && e.len as usize == e.len);
                }
                copy_range(&src.data, e.pos as usize, (e.pos as usize) + (e.len as usize))
            };
            // append it to the compaction segment
            let ghost dc0 = self.files@[ci as int].data@;
            let mut chunk_v = chunk;
            self.files[ci].data.append(&mut chunk_v);
            proof {
                let files_next = self.files@;
                let src = files_cur[fj as int].data@;
                assert(files_next == files_cur.update(ci as int, files_next[ci as int]));
                assert(files_next[ci as int].data@ == dc0 + src.subrange(
                    e.pos as int,
                    e.pos + e.len,
                ));
                assert forall|i: int|
                    0 <= i < files_cur.len() implies files_next[i].name@
                    == files_cur[i].name@ by {
                    if i != ci {
                        assert(files_next[i] == files_cur[i]);
                    }
                }
                lemma_find_same_names(files_cur, files_next);
                // the copied characters decode to the same record
                let c0 = parse_record(src, e.pos as int).unwrap().0;
                let chunkseq = src.subrange(e.pos as int, e.pos + e.len);
                assert((dc0 + chunkseq).subrange(dc0.len() as int, dc0.len() + e.len) =~= chunkseq);
                lemma_record_window(
                    src,
                    e.pos as int,
                    dc0 + chunkseq,
                    dc0.len() as int,
                    c0,
                    e.pos + e.len,
                );
                assert(parse_record(files_next[ci as int].data@, dc0.len() as int) == Some(
                    (c0, (dc0 + chunkseq).len() as int),
                ));
                // replaying the directory applies exactly this record last
                assert forall|h: u64|
                    comp_gen < h <= new_gen as int implies match #[trigger] find_log_file(
                    files_cur,
                    h,
                ) {
                    Some(fj2) => parse_stream(files_cur[fj2].data@, 0) matches Some(r2)
                        && r2.len() == 0,
                    None => true,
                } by {
                    assert(h == new_gen);
                    assert(find_log_file(files_cur, new_gen) == Some(ai as int));
                    assert(parse_stream(files_cur[ai as int].data@, 0) == Some(
                        Seq::<RecAt>::empty(),
                    ));
                }
                assert(e.len > 0);
                assert(chunkseq.len() > 0);
                lemma_replay_extend(
                    files_cur,
                    files_next,
                    ci as int,
                    comp_gen,
                    new_gen as int,
                    c0,
                    chunkseq,
                );
                let rec = RecAt {
                    cmd: c0,
                    start: dc0.len() as int,
                    end: files_next[ci as int].data@.len() as int,
                };
                assert(replay_upto(files_next, new_gen as int) == Some(
                    apply_rec(view_cur, comp_gen, rec),
                ));
                // the new stream of the compaction segment
                let recs_prev = comp_recs;
                lemma_stream_append(dc0, 0, chunkseq, c0);
                comp_recs = comp_recs.push(rec);
                assert(recs_prev + seq![rec] =~= comp_recs);
                assert(parse_stream(files_next[ci as int].data@, 0) == Some(comp_recs));
                lemma_replay_recs_push(Map::empty(), comp_gen, recs_prev, rec);
                pmap = pmap.insert(key@, CommandPos {
                    gen: comp_gen,
                    pos: dc0.len() as u64,
                    len: e.len,
                });
                assert(rec.cmd is Put);
                assert((match rec.cmd {
                    SpecCommand::Put { key: k2, value } => k2 == key@,
                    SpecCommand::Remove { .. } => false,
                }));
                assert(apply_rec(pmap.remove(key@), comp_gen, rec) =~= pmap) by {
                    assert(replay_recs(Map::empty(), comp_gen, comp_recs) == apply_rec(
                        replay_recs(Map::empty(), comp_gen, recs_prev),
                        comp_gen,
                        rec,
                    ));
                }
                assert(replay_recs(Map::empty(), comp_gen, comp_recs) =~= pmap);
            }
            let entry = CommandPos { gen: comp_gen, pos: new_pos as u64, len: e.len };
            index_insert(&mut self.index, key, entry);
            new_pos = self.files[ci].data.len();
            proof {
                let files_next = self.files@;
                let view_next = index_view(self.index);
                let src = files_cur[fj as int].data@;
                let chunkseq = src.subrange(e.pos as int, e.pos + e.len);
                let rec = RecAt {
                    cmd: parse_record(src, e.pos as int).unwrap().0,
                    start: dc0.len() as int,
                    end: files_next[ci as int].data@.len() as int,
                };
                assert(view_next == view_cur.insert(key@, entry));
                assert(apply_rec(view_cur, comp_gen, rec) == view_cur.insert(key@, entry));
                assert(replay_upto(files_next, new_gen as int) == Some(view_next));
                // well-formedness is maintained
                assert forall|k: Seq<char>| #[trigger] view_next.dom().contains(k) implies
                    entry_ok(files_next, k, view_next[k]) && entry_value(files_next, view_next[k])
                    == entry_value(files_cur, view_cur[k]) by {
                    let e2 = view_next[k];
                    if k == key@ {
                        assert(e2 == entry);
                        assert(find_log_file(files_next, comp_gen) == Some(ci as int));
                        assert(parse_record(files_next[ci as int].data@, dc0.len() as int)
                            == Some((rec.cmd, rec.end)));
                        assert(entry_value(files_cur, view_cur[k]) == entry_value(
                            files_cur,
                            e,
                        ));
                    } else {
                        assert(view_cur.dom().contains(k) && view_cur[k] == e2);
                        assert(entry_ok(files_cur, k, e2));
                        assert(find_log_file(files_next, e2.gen) == find_log_file(
                            files_cur,
                            e2.gen,
                        ));
                        let fj2 = find_log_file(files_cur, e2.gen).unwrap();
                        if fj2 == ci as int {
                            // an earlier record of the compaction segment
                            let c2 = parse_record(dc0, e2.pos as int).unwrap().0;
                            assert(dc0.subrange(e2.pos as int, e2.pos + e2.len) =~= (dc0
                                + chunkseq).subrange(e2.pos as int, e2.pos + e2.len));
                            lemma_record_window(
                                dc0,
                                e2.pos as int,
                                dc0 + chunkseq,
                                e2.pos as int,
                                c2,
                                e2.pos + e2.len,
                            );
                        } else {
                            assert(files_next[fj2] == files_cur[fj2]);
                        }
                    }
                }
                assert forall|i: int, g2: u64| has_gen(files_next, i, g2) implies g2
                    <= new_gen by {
                    assert(files_next[i].name@ == files_cur[i].name@);
                    assert(has_gen(files_cur, i, g2));
                }
                assert forall|i: int|
                    0 <= i < files1.len() implies files_next[i].name@ == files1[i].name@ by {
                    assert(files_next[i].name@ == files_cur[i].name@);
                }
                assert(files_next[ai as int] == files_cur[ai as int]);
                assert forall|i: int| 0 <= i < files00.len() implies files_next[i]
                    == files00[i] by {
                    assert(files_next[i] == files_cur[i]);
                }
                assert(self.wf());
                assert(self.kv() =~= kv0);
            }
            ei = ei + 1;
        }
        // publish the safe point and drop stale handles
        self.reader.safe_point = comp_gen;
        self.reader.close_stale_handles();
        // unlink every segment below the compaction generation
        let ghost files2 = self.files@;
        let ghost view2 = index_view(self.index);
        let stray_count = self.files.len() - 2;
        let mut kept: Vec<LogFile> = Vec::new();
        let mut di: usize = 0;
        while di < stray_count
            invariant
                di <= stray_count,
                stray_count == files2.len() - 2,
                self.files@ =~= files2.skip(di as int),
                self.cur_gen == new_gen,
                self.reader.safe_point == comp_gen,
                index_view(self.index) == view2,
                comp_gen == old_cur + 1,
                new_gen == old_cur + 2,
                old_cur == old(self).spec_cur_gen(),
                old_cur < u64::MAX - 4,
                1 <= old_cur,
                kept@.len() <= di,
                forall|j: int|
                    0 <= j < kept@.len() ==> parse_gen_name(#[trigger] kept@[j].name@) is None,
            decreases stray_count - di,
        {
            let f = self.files.remove(0);
            proof {
                assert(files2.skip(di as int).drop_first() =~= files2.skip(di + 1));
                assert(f == files2[di as int]);
            }
            let keep = match parse_gen(f.name.as_str()) {
                Some(_) => false,
                None => true,
            };
            if keep {
                kept.push(f);
            }
            di = di + 1;
        }
        let comp_f = self.files.remove(0);
        let act_f = self.files.remove(0);
        proof {
            assert(files2.skip(stray_count as int).drop_first() =~= files2.skip(
                stray_count as int + 1,
            ));
            assert(files2.skip(stray_count as int + 1).drop_first() =~= files2.skip(
                stray_count as int + 2,
            ));
            assert(comp_f == files2[stray_count as int]);
            assert(act_f == files2[stray_count as int + 1]);
        }
        let ghost strays = kept@;
        kept.push(comp_f);
        kept.push(act_f);
        self.files = kept;
        self.uncompacted = 0;
        proof {
            let files3 = self.files@;
            let cn = files3.len() - 2;
            assert(files3[cn] == files2[ci as int]);
            assert(files3[cn + 1] == files2[ai as int]);
            assert(parse_gen_name(files3[cn].name@) == Some(comp_gen));
            assert(parse_gen_name(files3[cn + 1].name@) == Some(new_gen));
            // lookups: only the compaction and active generations remain
            assert forall|h: u64, j: int| has_gen(files3, j, h) implies (h == comp_gen && j == cn)
                || (h == new_gen && j == cn + 1) by {
                if j < cn {
                    assert(files3[j] == strays[j]);
                    assert(parse_gen_name(files3[j].name@) is None);
                }
            }
            assert(distinct_gens(files3));
            assert(has_gen(files3, cn as int, comp_gen));
            lemma_find_log_file(files3, cn as int, comp_gen);
            assert(has_gen(files3, cn + 1, new_gen));
            lemma_find_log_file(files3, cn + 1, new_gen);
            assert forall|h: u64| h < comp_gen implies #[trigger] find_log_file(
                files3,
                h,
            ) is None by {
                if find_log_file(files3, h) is Some {
                    let j = choose|j: int| has_gen(files3, j, h);
                    assert(has_gen(files3, j, h));
                }
            }
            // replay: nothing below the compaction segment, then its records,
            // then the empty active segment
            lemma_replay_skip(files3, -1, comp_gen as int - 1);
            assert(replay_upto(files3, comp_gen as int - 1) == Some(Map::<Seq<char>, CommandPos>::empty()));
            assert(files3[cn].data@ == files2[ci as int].data@);
            assert(parse_stream(files3[cn].data@, 0) == Some(comp_recs));
            assert(replay_upto(files3, comp_gen as int) == Some(pmap));
            assert forall|h: u64| comp_gen < h <= new_gen - 1 implies #[trigger] find_log_file(
                files3,
                h,
            ) is None by {
                if find_log_file(files3, h) is Some {
                    let j = choose|j: int| has_gen(files3, j, h);
                    assert(has_gen(files3, j, h));
                }
            }
            lemma_replay_skip(files3, comp_gen as int, new_gen as int - 1);
            assert(parse_stream(files3[cn + 1].data@, 0) == Some(Seq::<RecAt>::empty()));
            assert(replay_upto(files3, new_gen as int) == Some(pmap));
            // every key was processed, so the index equals the processed map
            assert forall|k: Seq<char>| #[trigger] view2.dom().contains(k) implies pmap.dom().contains(
                k,
            ) && view2[k] == pmap[k] by {
                assert(view0.dom().contains(k));
                let a = choose|a: int| 0 <= a < entries@.len() && #[trigger] entries@[a].0@ == k;
                assert(pmap.dom().contains(entries@[a].0@));
            }
            assert forall|k: Seq<char>| #[trigger] pmap.dom().contains(k) implies view2.dom().contains(
                k,
            ) by {
                let a = choose|a: int| 0 <= a < entries@.len() && #[trigger] entries@[a].0@ == k;
                assert(view0.dom().contains(entries@[a].0@));
            }
            assert(view2 =~= pmap);
            // entries still name their records in the shrunken directory
            assert forall|k: Seq<char>| #[trigger] view2.dom().contains(k) implies entry_ok(
                files3,
                k,
                view2[k],
            ) && entry_value(files3, view2[k]) == entry_value(files2, view2[k]) by {
                let e2 = view2[k];
                assert(entry_ok(files2, k, e2));
                assert(e2.gen == comp_gen) by {
                    assert(pmap.dom().contains(k));
                }
                assert(find_log_file(files2, comp_gen) == Some(ci as int));
                assert(find_log_file(files3, comp_gen) == Some(cn as int));
                assert(files3[cn].data@ == files2[ci as int].data@);
            }
            assert forall|i: int, g2: u64| has_gen(files3, i, g2) implies g2 <= new_gen by {}
            assert(self.wf());
            assert(self.kv() =~= kv0);
            assert(self.index_map().dom() =~= view0.dom());
            // the space bound: all segment bytes live in the compaction
            // segment
            assert(files3 =~= strays + seq![files3[cn], files3[cn + 1]]);
            lemma_total_size_concat(strays, seq![files3[cn], files3[cn + 1]]);
            lemma_total_size_strays(strays);
            assert(total_log_size(seq![files3[cn], files3[cn + 1]]) == files3[
                cn
            ].data@.len()) by {
                let two = seq![files3[cn], files3[cn + 1]];
                assert(two[0] == files3[cn]);
                assert(parse_gen_name(two[0].name@) is Some);
                assert(two.drop_first() =~= seq![files3[cn + 1]]);
                assert(seq![files3[cn + 1]][0] == files3[cn + 1]);
                assert(seq![files3[cn + 1]].drop_first() =~= Seq::<LogFile>::empty());
                assert(total_log_size(Seq::<LogFile>::empty()) == 0);
                assert(files3[cn + 1].data@.len() == 0);
                assert(total_log_size(seq![files3[cn + 1]]) == 0);
            }
            assert(compacted_shape(*self));
        }
    }

    /// Closes the store, releasing it into the files of its directory.
    pub fn close(self) -> (r: Vec<LogFile>)
        ensures
            r@ == self.spec_files(),
    {
        self.files
    }

    /// Opens a store over the files of a directory (a real directory cannot
    /// hold two files of one name, so generations are distinct).
    ///
    /// Replays every segment in ascending generation order to rebuild the
    /// index, then starts a fresh active generation above every existing
    /// one. Fails with `Serde` exactly when some segment is malformed.
    pub fn open(files: Vec<LogFile>) -> (r: Result<KvStore, KvsError>)
        requires
            distinct_gens(files@),
            gens_bounded(files@),
        ensures
            (match r {
                Ok(store) => {
                    &&& store.wf()
                    &&& disk_index(files@) == Some(store.index_map())
                    &&& store.kv() == index_kv(files@, store.index_map())
                    &&& store.spec_files().len() == files@.len() + 1
                    &&& store.spec_files().subrange(0, files@.len() as int) == files@
                    &&& store.spec_files().last().data@.len() == 0
                    &&& parse_gen_name(store.spec_files().last().name@) == Some(
                        store.spec_cur_gen(),
                    )
                    &&& store.spec_safe_point() == 0
                },
                Err(e) => e == KvsError::Serde && disk_index(files@) is None,
            }),
    {
        let gens = sorted_gen_list(&files);
        let mut index = index_new();
        let mut uncompacted: u64 = 0;
        let mut gi: usize = 0;
        let ghost mut top: int = -1;
        proof {
            assert forall|a: int| 0 <= a < gens@.len() implies gens@[a] < u64::MAX - 8 by {
                assert(gens@.contains(gens@[a]));
                let i = choose|i: int| has_gen(files@, i, gens@[a]);
                assert(has_gen(files@, i, gens@[a]));
            }
        }
        while gi < gens.len()
            invariant
                distinct_gens(files@),
                gi <= gens.len(),
                forall|a: int, b: int| 0 <= a < b < gens@.len() ==> gens@[a] < gens@[b],
                forall|g: u64| gens@.contains(g) <==> find_log_file(files@, g) is Some,
                forall|a: int| 0 <= a < gens@.len() ==> gens@[a] < u64::MAX - 8,
                top == if gi == 0 {
                    -1int
                } else {
                    gens@[gi - 1] as int
                },
                -1 <= top <= u64::MAX - 2,
                replay_upto(files@, top) == Some(index_view(index)),
                index_view(index).dom().finite(),
                forall|k: Seq<char>|
                    #[trigger] index_view(index).dom().contains(k) ==> entry_ok(
                        files@,
                        k,
                        index_view(index)[k],
                    ) && index_view(index)[k].gen <= top,
            decreases gens.len() - gi,
        {
            let g = gens[gi];
            proof {
                assert(gens@.contains(g));
                // no generation lies strictly between `top` and `g`
                assert forall|h: u64| top < h <= g - 1 implies #[trigger] find_log_file(
                    files@,
                    h,
                ) is None by {
                    if find_log_file(files@, h) is Some {
                        assert(gens@.contains(h));
                        let a = choose|a: int| 0 <= a < gens@.len() && gens@[a] == h;
                        if a < gi {
                            if gi > 0 && a < gi - 1 {
                                assert(gens@[a] < gens@[gi - 1]);
                            }
                            assert(false);
                        } else {
                            if a > gi {
                                assert(gens@[gi as int] < gens@[a]);
                            }
                            assert(false);
                        }
                    }
                }
                lemma_replay_skip(files@, top, g - 1);
            }
            let fi = match find_file(&files, g) {
                Some(fi) => fi,
                None => {
                    proof {
                        assert(false);
                    }
                    return Err(KvsError::Io);
                },
            };
            let ghost m0 = index_view(index);
            let ghost mut done: Seq<RecAt> = Seq::empty();
            let file_len = files[fi].data.len();
            let mut pos: usize = 0;
            proof {
                assert(Seq::<RecAt>::empty() + parse_stream(files@[fi as int].data@, 0).unwrap()
                    =~= parse_stream(files@[fi as int].data@, 0).unwrap());
            }
            while pos < file_len
                invariant
                    distinct_gens(files@),
                    0 <= fi < files@.len(),
                    find_log_file(files@, g) == Some(fi as int),
                    file_len == files@[fi as int].data@.len(),
                    pos <= file_len,
                    g < u64::MAX - 8,
                    -1 <= top < g,
                    replay_upto(files@, g - 1) == Some(m0),
                    ({
                        let data = files@[fi as int].data@;
                        match parse_stream(data, pos as int) {
                            None => parse_stream(data, 0) is None,
                            Some(rest) => parse_stream(data, 0) == Some(done + rest),
                        }
                    }),
                    index_view(index) == replay_recs(m0, g, done),
                    index_view(index).dom().finite(),
                    forall|k: Seq<char>|
                        #[trigger] index_view(index).dom().contains(k) ==> entry_ok(
                            files@,
                            k,
                            index_view(index)[k],
                        ) && index_view(index)[k].gen <= g,
                decreases file_len - pos,
            {
                let cmd_end = {
                    let file = &files[fi];
                    decode_record(&file.data, pos)
                };
                match cmd_end {
                    None => {
                        proof {
                            let data = files@[fi as int].data@;
                            assert(parse_stream(data, pos as int) is None);
                            assert(parse_stream(data, 0) is None);
                            assert(replay_upto(files@, g as int) is None);
                            lemma_replay_poison(files@, g as int, u64::MAX - 2);
                        }
                        return Err(KvsError::Serde);
                    },
                    Some((cmd, end)) => {
                        proof {
                            let data = files@[fi as int].data@;
                            lemma_record_bounds(data, pos as int);
                            // one step of the stream
                            assert(parse_stream(data, pos as int) == (match parse_stream(
                                data,
                                end as int,
                            ) {
                                None => None::<Seq<RecAt>>,
                                Some(r) => Some(
                                    seq![
                                        RecAt { cmd: cmd@, start: pos as int, end: end as int },
                                    ] + r,
                                ),
                            }));
                        }
                        let ghost rec = RecAt { cmd: cmd@, start: pos as int, end: end as int };
                        match cmd {
                            Command::Put { key, value } => {
                                match index_get(&index, &key) {
                                    Some(prior) => {
                                        uncompacted = uncompacted.saturating_add(prior.len);
                                    },
                                    None => {},
                                }
                                let entry = CommandPos {
                                    gen: g,
                                    pos: pos as u64,
                                    len: (end - pos) as u64,
                                };
                                index_insert(&mut index, key, entry);
                            },
                            Command::Remove { key } => {
                                match index_remove(&mut index, &key) {
                                    Some(prior) => {
                                        uncompacted = uncompacted.saturating_add(prior.len);
                                    },
                                    None => {},
                                }
                                uncompacted = uncompacted.saturating_add((end - pos) as u64);
                            },
                        }
                        proof {
                            let data = files@[fi as int].data@;
                            lemma_replay_recs_push(m0, g, done, rec);
                            assert(index_view(index) == apply_rec(replay_recs(m0, g, done), g, rec));
                            done = done.push(rec);
                            assert(index_view(index) == replay_recs(m0, g, done));
                            match parse_stream(data, end as int) {
                                None => {},
                                Some(rest) => {
                                    assert(done.drop_last() + (seq![rec] + rest) =~= done + rest);
                                },
                            }
                            // every entry still in the index is intact
                            assert forall|k: Seq<char>|
                                #[trigger] index_view(index).dom().contains(k) implies entry_ok(
                                files@,
                                k,
                                index_view(index)[k],
                            ) && index_view(index)[k].gen <= g by {
                                if index_view(index)[k].gen != g || index_view(index)[k].pos != pos
                                    as u64 {
                                } else {
                                    assert(parse_record(data, pos as int) == Some(
                                        (cmd@, end as int),
                                    ));
                                }
                            }
                        }
                        pos = end;
                    },
                }
            }
            proof {
                let data = files@[fi as int].data@;
                assert(pos == file_len);
                assert(parse_stream(data, pos as int) == Some(Seq::<RecAt>::empty()));
                assert(done + Seq::<RecAt>::empty() =~= done);
                assert(parse_stream(data, 0) == Some(done));
                assert(replay_upto(files@, g as int) == Some(replay_recs(m0, g, done)));
                top = g as int;
            }
            gi = gi + 1;
        }
        // the fresh active generation lies above everything present
        let cur_gen: u64 = if gens.len() == 0 {
            1
        } else {
            gens[gens.len() - 1] + 1
        };
        proof {
            assert forall|h: u64| top < h <= cur_gen - 1 implies #[trigger] find_log_file(
                files@,
                h,
            ) is None by {
                if find_log_file(files@, h) is Some {
                    assert(gens@.contains(h));
                    let a = choose|a: int| 0 <= a < gens@.len() && gens@[a] == h;
                    if (a as int) < gens@.len() - 1 {
                        assert(gens@[a] < gens@[gens@.len() - 1]);
                    }
                    assert(false);
                }
            }
            lemma_replay_skip(files@, top, cur_gen - 1);
            assert forall|h: u64| cur_gen - 1 < h <= u64::MAX - 2 implies #[trigger] find_log_file(
                files@,
                h,
            ) is None by {
                if find_log_file(files@, h) is Some {
                    assert(gens@.contains(h));
                    let a = choose|a: int| 0 <= a < gens@.len() && gens@[a] == h;
                    if (a as int) < gens@.len() - 1 {
                        assert(gens@[a] < gens@[gens@.len() - 1]);
                    }
                    assert(false);
                }
            }
            lemma_replay_skip(files@, cur_gen - 1, u64::MAX - 2);
        }
        let ghost files0 = files@;
        let ghost view = index_view(index);
        let mut files = files;
        let active = LogFile { name: log_path(cur_gen), data: Vec::new() };
        proof {
            lemma_parse_gen_name(cur_gen);
        }
        files.push(active);
        proof {
            let files2 = files@;
            assert(files2 =~= files0.push(files2.last()));
            assert(parse_gen_name(files2.last().name@) == Some(cur_gen));
            // distinctness extends: the active generation is fresh
            assert forall|i: int, j: int, g2: u64|
                has_gen(files2, i, g2) && has_gen(files2, j, g2) implies i == j by {
                if i < files0.len() && j < files0.len() {
                    assert(files2[i] == files0[i] && files2[j] == files0[j]);
                    assert(has_gen(files0, i, g2) && has_gen(files0, j, g2));
                } else if i == files0.len() && j < files0.len() {
                    assert(g2 == cur_gen);
                    assert(files2[j] == files0[j]);
                    assert(has_gen(files0, j, g2));
                    lemma_find_log_file(files0, j, g2);
                    assert(gens@.contains(g2));
                    let a = choose|a: int| 0 <= a < gens@.len() && gens@[a] == g2;
                    if (a as int) < gens@.len() - 1 {
                        assert(gens@[a] < gens@[gens@.len() - 1]);
                    }
                    assert(false);
                } else if j == files0.len() && i < files0.len() {
                    assert(g2 == cur_gen);
                    assert(files2[i] == files0[i]);
                    assert(has_gen(files0, i, g2));
                    lemma_find_log_file(files0, i, g2);
                    assert(gens@.contains(g2));
                    let a = choose|a: int| 0 <= a < gens@.len() && gens@[a] == g2;
                    if (a as int) < gens@.len() - 1 {
                        assert(gens@[a] < gens@[gens@.len() - 1]);
                    }
                    assert(false);
                }
            }
            assert(distinct_gens(files2));
            // every other generation is found where it was
            assert forall|h: u64| h != cur_gen implies #[trigger] find_log_file(files2, h)
                == find_log_file(files0, h) by {
                lemma_find_extend(files0, files2.last(), h);
            }
            lemma_replay_agree(files0, files2, cur_gen - 1);
            assert(has_gen(files2, files0.len() as int, cur_gen));
            lemma_find_log_file(files2, files0.len() as int, cur_gen);
            assert(parse_stream(files2[files0.len() as int].data@, 0) == Some(
                Seq::<RecAt>::empty(),
            ));
            assert(replay_upto(files2, cur_gen as int) == Some(view));
        }
        let store = KvStore {
            files,
            index,
            reader: KvStoreReader { safe_point: 0, open_gens: Vec::new() },
            cur_gen,
            uncompacted,
        };
        proof {
            let files2 = store.files@;
            // index entries point below the active generation and stay intact
            assert forall|k: Seq<char>|
                #[trigger] store.index_map().dom().contains(k) implies entry_ok(
                files2,
                k,
                store.index_map()[k],
            ) && store.index_map()[k].gen <= store.cur_gen by {
                let e = store.index_map()[k];
                assert(entry_ok(files0, k, e));
                lemma_gen_bound(files0, e.gen);
                assert(find_log_file(files2, e.gen) == find_log_file(files0, e.gen));
                let fi2 = find_log_file(files0, e.gen).unwrap();
                assert(files2[fi2] == files0[fi2]);
            }
            assert forall|i: int, g2: u64| has_gen(files2, i, g2) implies g2 <= store.cur_gen by {
                if i < files0.len() {
                    assert(files2[i] == files0[i]);
                    assert(has_gen(files0, i, g2));
                    lemma_find_log_file(files0, i, g2);
                    assert(gens@.contains(g2));
                    let a = choose|a: int| 0 <= a < gens@.len() && gens@[a] == g2;
                    if (a as int) < gens@.len() - 1 {
                        assert(gens@[a] < gens@[gens@.len() - 1]);
                    }
                } else {
                    assert(files2[i] == files2.last());
                }
            }
            assert(store.wf());
            // the values the store returns are read from the original files
            assert forall|k: Seq<char>| #[trigger] view.dom().contains(k) implies entry_value(
                files2,
                view[k],
            ) == entry_value(files0, view[k]) by {
                let e = view[k];
                assert(entry_ok(files0, k, e));
                assert(find_log_file(files2, e.gen) == find_log_file(files0, e.gen));
                let fi2 = find_log_file(files0, e.gen).unwrap();
                assert(files2[fi2] == files0[fi2]);
            }
            assert(store.kv() =~= index_kv(files0, view));
            assert(store.spec_files().subrange(0, files0.len() as int) =~= files0);
        }
        Ok(store)
    }
}

impl crate::engines::KvsEngine for KvStore {
    open spec fn kv(&self) -> Map<Seq<char>, Seq<char>> {
        index_kv(self.files@, index_view(self.index))
    }

    open spec fn inv(&self) -> bool {
        self.wf()
    }

    fn set(&mut self, key: String, value: String) -> (r: Result<(), KvsError>) {
        self.set(key, value)
    }

    fn get(&mut self, key: String) -> (r: Result<Option<String>, KvsError>) {
        self.get(key)
    }

    fn remove(&mut self, key: String) -> (r: Result<(), KvsError>) {
        self.remove(key)
    }
}

// ---------------------------------------------------------------------------
// laws
// ---------------------------------------------------------------------------
/// Round trip: after `set(k, v)` the store maps `k` to `v`, and it keeps
/// doing so across any mutation of another key, until the next `set` or
/// `remove` of `k` itself.
pub proof fn lemma_round_trip(
    m: Map<Seq<char>, Seq<char>>,
    k: Seq<char>,
    v: Seq<char>,
    k2: Seq<char>,
    v2: Seq<char>,
)
    requires
        k2 != k,
    ensures
        m.insert(k, v).dom().contains(k),
        m.insert(k, v)[k] == v,
        m.insert(k, v).insert(k2, v2)[k] == v,
        m.insert(k, v).remove(k2)[k] == v,
{
}

/// Absence: after `remove(k)` the key reads as absent, and keeps doing so
/// across any mutation of another key, until the next `set(k, _)`.
pub proof fn lemma_absence(m: Map<Seq<char>, Seq<char>>, k: Seq<char>, k2: Seq<char>, v2: Seq<char>)
    requires
        k2 != k,
    ensures
        !m.remove(k).dom().contains(k),
        !m.remove(k).insert(k2, v2).dom().contains(k),
        !m.remove(k).remove(k2).dom().contains(k),
{
}

/// Last writer wins: two assignments to one key in program order leave the
/// later value, exactly as if the first had never happened.
pub proof fn lemma_last_writer_wins(
    m: Map<Seq<char>, Seq<char>>,
    k: Seq<char>,
    v1: Seq<char>,
    v2: Seq<char>,
)
    ensures
        m.insert(k, v1).insert(k, v2) == m.insert(k, v2),
        m.insert(k, v2)[k] == v2,
{
    assert(m.insert(k, v1).insert(k, v2) =~= m.insert(k, v2));
}

/// Persistence: the directory alone determines the store. A well-formed
/// store's files replay to exactly its index, and the values read through
/// that index are the store's values; with `open`'s contract, closing and
/// reopening the same files yields identical observations for every key.
pub proof fn lemma_persistence(s: KvStore)
    requires
        s.wf(),
    ensures
        disk_index(s.spec_files()) == Some(s.index_map()),
        index_kv(s.spec_files(), s.index_map()) == KvStore::kv(s),
{
    assert forall|h: u64|
        s.spec_cur_gen() < h <= u64::MAX - 2 implies #[trigger] find_log_file(
        s.spec_files(),
        h,
    ) is None by {
        if find_log_file(s.spec_files(), h) is Some {
            let i = choose|i: int| has_gen(s.spec_files(), i, h);
            assert(has_gen(s.spec_files(), i, h));
            assert(false);
        }
    }
    lemma_replay_skip(s.spec_files(), s.spec_cur_gen() as int, u64::MAX - 2);
}

/// Concurrent reads: what a read observes is a function of the store's map
/// alone, so readers over the same state all see the same value per key.
pub proof fn lemma_concurrent_reads(a: KvStore, b: KvStore, k: Seq<char>)
    requires
        KvStore::kv(a) == KvStore::kv(b),
    ensures
        KvStore::kv(a).dom().contains(k) <==> KvStore::kv(b).dom().contains(k),
        KvStore::kv(a).dom().contains(k) ==> KvStore::kv(a)[k] == KvStore::kv(b)[k],
{
}

} // verus!
