//! Running a compaction: the input tables merged into one new table.
use crate::common::error::{DzongError, Result};
use crate::common::key_value::Key;
use crate::common::text::{push_zero_padded, zero_padded};
use crate::compaction::merge_spec::{merge_all, run_view, stuck, Run};
use crate::compaction::merger::MergeIterator;
use crate::compaction::picker::CompactionJob;
use crate::compaction::tombstones::{drop_tombstones, live_records};
use crate::manifest::record::{EditView, FileMetadata, FileView, VersionEdit};
use crate::manifest::version::{Version, VersionSet};
use crate::sstable::layout::{table_blocks, table_layout};
use crate::sstable::reader::{
    block_bytes, lemma_seek_block_range, open_error, open_table, scan_yields, seek_block, Seek,
    SstableReader, TableOpen,
};
use crate::sstable::record::{lemma_decode_sst_record_len, RecordView, SstableRecord};
use crate::sstable::writer::{records_fit, records_view, table_fits, SstableWriter};
use vstd::prelude::*;
use vstd::string::*;

verus! {

/// The file name of table `id`: the id in at least six digits, then `.sst`.
pub open spec fn table_file_name(id: u64) -> Seq<char> {
    zero_padded(id as nat, 6) + seq!['.', 's', 's', 't']
}

/// `name` within the directory `base`, as joining paths puts it: `base`
/// itself where it is empty or ends with a separator, else a separator
/// between them.
pub open spec fn join_path(base: Seq<char>, name: Seq<char>) -> Seq<char> {
    if base.len() == 0 || base.last() == '/' {
        base + name
    } else {
        base + seq!['/'] + name
    }
}

/// Table `data` opens.
pub open spec fn opens(data: Seq<u8>) -> bool {
    open_table(data) is Opened
}

/// Table `data` opens, and `run` is what a scan of it yields.
pub open spec fn scans_to(data: Seq<u8>, run: Run) -> bool {
    match open_table(data) {
        TableOpen::Opened(es) => scan_yields(data, es, 0, Seq::empty(), run),
        _ => false,
    }
}

/// Table `i` is the first of `tables` that does not open.
pub open spec fn first_unopened(tables: Seq<Vec<u8>>, i: int) -> bool {
    &&& 0 <= i < tables.len()
    &&& !opens(tables[i]@)
    &&& forall|j: int| 0 <= j < i ==> opens(#[trigger] tables[j]@)
}

/// Run `i` is the first of `runs` to start with an error.
pub open spec fn first_stuck(runs: Seq<Run>, i: int) -> bool {
    &&& 0 <= i < runs.len()
    &&& stuck(runs[i])
    &&& forall|j: int| 0 <= j < i ==> !stuck(#[trigger] runs[j])
}

/// The metadata of the table a compaction writes: the new id, its path,
/// the first and last keys of its records (empty where it has none), and
/// its size.
pub open spec fn output_file(base: Seq<char>, id: u64, out: Seq<RecordView>, size: nat) -> FileView {
    FileView {
        id: id,
        path: join_path(base, table_file_name(id)),
        min_key: if out.len() > 0 {
            out[0].key
        } else {
            Seq::empty()
        },
        max_key: if out.len() > 0 {
            out.last().key
        } else {
            Seq::empty()
        },
        size: size as u64,
    }
}

/// Path `p` is one of the job's input paths.
pub open spec fn is_input(inputs: Seq<String>, p: Seq<char>) -> bool {
    exists|i: int| 0 <= i < inputs.len() && (#[trigger] inputs[i])@ == p
}

/// The removal of each file of `files`, a level's files, whose path is an
/// input, in the level's order.
pub open spec fn level_removals(level: u32, files: Seq<FileView>, inputs: Seq<String>) -> Seq<EditView>
    decreases files.len(),
{
    if files.len() == 0 {
        Seq::empty()
    } else if is_input(inputs, files.last().path) {
        level_removals(level, files.drop_last(), inputs).push(
            EditView::RemoveFile { level: level, id: files.last().id },
        )
    } else {
        level_removals(level, files.drop_last(), inputs)
    }
}

/// The removals of the input files of `level`, none where the level does
/// not exist.
pub open spec fn removals_at(levels: Seq<Seq<FileView>>, level: u32, inputs: Seq<String>) -> Seq<EditView> {
    if level < levels.len() {
        level_removals(level, levels[level as int], inputs)
    } else {
        Seq::empty()
    }
}

/// The removals a compaction makes: its input files in the source level,
/// then in the target level where that is another.
pub open spec fn removal_edits(levels: Seq<Seq<FileView>>, from: u32, to: u32, inputs: Seq<String>) -> Seq<EditView> {
    if from == to {
        removals_at(levels, from, inputs)
    } else {
        removals_at(levels, from, inputs) + removals_at(levels, to, inputs)
    }
}

/// The views of a list of edits.
pub open spec fn edits_view(edits: Seq<VersionEdit>) -> Seq<EditView> {
    Seq::new(edits.len(), |i: int| edits[i]@)
}

/// What a compaction of the runs that scanning its tables yields gives:
/// the error of the first run that starts with one; else, with a new table
/// id handed out, the error the merge meets, or an error where the merged
/// puts do not fit a table, or the table of the merged puts (deletes are
/// dropped) and the edits that remove the input files and add the table to
/// the target level.
pub open spec fn compaction_outcome(
    base: Seq<char>,
    job: (u32, u32, Seq<String>),
    runs: Seq<Run>,
    before: VersionSet,
    after: VersionSet,
    r: Result<(Vec<VersionEdit>, Vec<u8>)>,
) -> bool {
    let (from, level, inputs) = job;
    if exists|i: int| first_stuck(runs, i) {
        &&& r is Err
        &&& exists|i: int| first_stuck(runs, i) && runs[i][0] == Err::<RecordView, DzongError>(r->Err_0)
        &&& after.files() == before.files()
        &&& after.next_id() == before.next_id()
    } else {
        &&& after.files() == before.files()
        &&& after.next_id() == before.next_id() + 1
        &&& match merge_all(runs) {
            Err(e) => r == Err::<(Vec<VersionEdit>, Vec<u8>), DzongError>(e),
            Ok(out) => if table_fits(live_records(out)) {
                &&& r is Ok
                &&& r->Ok_0.1@ == table_layout(table_blocks(live_records(out)))
                &&& edits_view(r->Ok_0.0@) == removal_edits(before.files(), from, level, inputs).push(
                    EditView::AddFile {
                        level: level,
                        file: output_file(base, before.next_id(), live_records(out), r->Ok_0.1@.len()),
                    },
                )
            } else {
                r matches Err(DzongError::Invariant { .. })
            },
        }
    }
}

/// Whether `p` is one of the input paths.
fn is_input_path(inputs: &Vec<String>, p: &String) -> (r: bool)
    ensures
        r == is_input(inputs@, p@),
{
    let mut i: usize = 0;
    while i < inputs.len()
        invariant
            i <= inputs@.len(),
            forall|j: int| 0 <= j < i ==> (#[trigger] inputs@[j])@ != p@,
        decreases inputs@.len() - i,
    {
        if inputs[i] == *p {
            return true;
        }
        i = i + 1;
    }
    false
}

/// Appends the removals of the input files of `level` to `edits`.
fn push_removals(version: &Version, level: u32, inputs: &Vec<String>, edits: &mut Vec<VersionEdit>)
    ensures
        edits_view(final(edits)@) == edits_view(old(edits)@) + removals_at(version@, level, inputs@),
{
    if (level as usize) >= version.levels.len() {
        assert(edits_view(edits@) =~= edits_view(edits@) + Seq::<EditView>::empty());
        return;
    }
    let files = &version.levels[level as usize];
    let ghost fs = version@[level as int];
    let ghost start = edits_view(edits@);
    assert(fs.take(0) =~= Seq::<FileView>::empty());
    assert(start =~= start + level_removals(level, fs.take(0), inputs@));
    let mut i: usize = 0;
    while i < files.len()
        invariant
            i <= files@.len(),
            files@.len() == fs.len(),
            forall|j: int| 0 <= j < fs.len() ==> #[trigger] fs[j] == files@[j]@,
            edits_view(edits@) == start + level_removals(level, fs.take(i as int), inputs@),
        decreases files@.len() - i,
    {
        let ghost before = edits_view(edits@);
        assert(fs.take(i + 1).drop_last() =~= fs.take(i as int));
        assert(fs.take(i + 1).last() == files@[i as int]@);
        if is_input_path(inputs, &files[i].path) {
            edits.push(VersionEdit::RemoveFile { level, id: files[i].id });
            assert(edits_view(edits@) =~= before.push(EditView::RemoveFile { level: level, id: fs[i as int].id }));
            assert(start + level_removals(level, fs.take(i + 1), inputs@) =~= (start + level_removals(
                level,
                fs.take(i as int),
                inputs@,
            )).push(EditView::RemoveFile { level: level, id: fs[i as int].id }));
        }
        i = i + 1;
    }
    assert(fs.take(files@.len() as int) =~= fs);
}

/// Runs compactions, writing their tables under a directory.
pub struct CompactionWorker {
    base_path: String,
}

/// Collects what a scan of the table yields, up to its end or first error.
fn scan_items(reader: &SstableReader) -> (items: Vec<Result<SstableRecord>>)
    ensures
        scan_yields(reader.data(), reader.entries(), 0, Seq::empty(), run_view(items@)),
{
    let ghost d = reader.data();
    let ghost es = reader.entries();
    let mut items: Vec<Result<SstableRecord>> = Vec::new();
    let mut it = match reader.scan() {
        Ok(it) => it,
        Err(e) => {
            return items;
        },
    };
    proof {
        assert forall|s: Run| scan_yields(d, es, it.block_idx(), it.rest(), s) implies scan_yields(
            d,
            es,
            0,
            Seq::empty(),
            run_view(items@) + s,
        ) by {
            assert(run_view(items@) + s =~= s);
        }
    }
    loop
        invariant
            it.data() == d,
            it.entries() == es,
            d == reader.data(),
            es == reader.entries(),
            it.block_idx() <= es.len(),
            forall|s: Run|
                #[trigger] scan_yields(d, es, it.block_idx(), it.rest(), s) ==> scan_yields(
                    d,
                    es,
                    0,
                    Seq::empty(),
                    run_view(items@) + s,
                ),
        decreases es.len() - it.block_idx(), it.rest().len(),
    {
        let ghost idx0 = it.block_idx();
        let ghost rest0 = it.rest();
        let ghost prev = run_view(items@);
        proof {
            lemma_seek_block_range(d, es, idx0);
            lemma_decode_sst_record_len(rest0);
            if rest0.len() == 0 {
                if let Seek::Block(j) = seek_block(d, es, idx0) {
                    lemma_decode_sst_record_len(block_bytes(d, es[j]));
                }
            }
        }
        let item = it.next_record();
        match item {
            None => {
                proof {
                    assert(scan_yields(d, es, idx0, rest0, Seq::empty()));
                    assert(scan_yields(d, es, 0, Seq::empty(), prev + Seq::empty()));
                    assert(prev + Seq::<core::result::Result<RecordView, DzongError>>::empty() =~= prev);
                }
                return items;
            },
            Some(Ok(rec)) => {
                let ghost v = rec@;
                items.push(Ok(rec));
                proof {
                    assert(run_view(items@) =~= prev.push(Ok::<RecordView, DzongError>(v)));
                    assert forall|s: Run| scan_yields(d, es, it.block_idx(), it.rest(), s) implies scan_yields(
                        d,
                        es,
                        0,
                        Seq::empty(),
                        run_view(items@) + s,
                    ) by {
                        let s2 = seq![Ok::<RecordView, DzongError>(v)] + s;
                        assert(s2.drop_first() =~= s);
                        if rest0.len() == 0 {
                            if let Seek::Block(j) = seek_block(d, es, idx0) {
                                assert(scan_yields(d, es, j + 1, block_bytes(d, es[j]), s2));
                            }
                        }
                        assert(scan_yields(d, es, idx0, rest0, s2));
                        assert(prev + s2 =~= run_view(items@) + s);
                    }
                }
            },
            Some(Err(e)) => {
                items.push(Err(e));
                proof {
                    let s2 = seq![Err::<RecordView, DzongError>(e)];
                    assert(run_view(items@) =~= prev + s2);
                    if rest0.len() == 0 {
                        if let Seek::Block(j) = seek_block(d, es, idx0) {
                            assert(scan_yields(d, es, j + 1, block_bytes(d, es[j]), s2));
                        }
                    }
                    assert(scan_yields(d, es, idx0, rest0, s2));
                    assert(scan_yields(d, es, 0, Seq::empty(), prev + s2));
                }
                return items;
            },
        }
    }
}

/// Writes the table of the merged records, if they fit one.
fn write_table(records: &Vec<SstableRecord>) -> (r: Result<Vec<u8>>)
    ensures
        r is Ok <==> table_fits(records_view(records@)),
        r matches Ok(bytes) ==> bytes@ == table_layout(table_blocks(records_view(records@))),
        r matches Err(e) ==> e is Invariant,
{
    if !records_fit(records) {
        return Err(too_large());
    }
    Ok(SstableWriter::write_records(records))
}

/// The error for merged records that do not fit a table.
fn too_large() -> (e: DzongError)
    ensures
        e is Invariant,
{
    DzongError::Invariant {
        message: String::from_str("Compaction output does not fit a table"),
        context: None,
    }
}

impl CompactionWorker {
    /// The directory the worker writes its tables under.
    pub closed spec fn base_path(self) -> Seq<char> {
        self.base_path@
    }

    pub fn new(base_path: String) -> (r: Self)
        ensures
            r.base_path() == base_path@,
    {
        Self { base_path }
    }

    /// The path of table `id` under the worker's directory.
    fn output_path(&self, id: u64) -> (r: String)
        ensures
            r@ == join_path(self.base_path@, table_file_name(id)),
    {
        let mut path = self.base_path.clone();
        let n = path.as_str().unicode_len();
        if n > 0 && path.as_str().get_char(n - 1) != '/' {
            proof {
                reveal_strlit("/");
            }
            path.append("/");
        }
        push_zero_padded(&mut path, id, 6);
        proof {
            reveal_strlit(".sst");
        }
        path.append(".sst");
        proof {
            assert(".sst"@ =~= seq!['.', 's', 's', 't']);
            if self.base_path@.len() == 0 || self.base_path@.last() == '/' {
                assert(path@ =~= join_path(self.base_path@, table_file_name(id)));
            } else {
                assert("/"@ =~= seq!['/']);
                assert(path@ =~= join_path(self.base_path@, table_file_name(id)));
            }
        }
        path
    }

    /// Compacts the job's input tables, given as their bytes in the order of
    /// its input files, into one new table for the job's target level. The
    /// tables are opened, scanned and merged (the newest record of each key
    /// kept, and a key whose newest record is a delete dropped); a new file
    /// id is handed out once the merge starts. Returns the edits that remove
    /// the input files from the job's levels and add the new table, and the
    /// table's bytes.
    pub fn run_compaction(
        &self,
        job: CompactionJob,
        tables: Vec<Vec<u8>>,
        version_set: &mut VersionSet,
    ) -> (r: Result<(Vec<VersionEdit>, Vec<u8>)>)
        requires
            old(version_set).next_id() < u64::MAX,
        ensures
            (exists|i: int| first_unopened(tables@, i)) ==> {
                &&& r is Err
                &&& exists|i: int| first_unopened(tables@, i) && open_error(tables@[i]@, r->Err_0)
                &&& final(version_set).files() == old(version_set).files()
                &&& final(version_set).next_id() == old(version_set).next_id()
            },
            (forall|i: int| 0 <= i < tables@.len() ==> opens(#[trigger] tables@[i]@)) ==> exists|
                runs: Seq<Run>,
            |
                #![trigger compaction_outcome(self.base_path(), (job.from_level, job.to_level, job.input_files@), runs, *old(version_set), *final(version_set), r)]
                runs.len() == tables@.len() && (forall|i: int|
                    0 <= i < runs.len() ==> scans_to(tables@[i]@, #[trigger] runs[i]))
                    && compaction_outcome(
                    self.base_path(),
                    (job.from_level, job.to_level, job.input_files@),
                    runs,
                    *old(version_set),
                    *final(version_set),
                    r,
                ),
    {
        let ghost n = tables@.len();
        let ghost orig = tables@;
        let mut pending = tables;
        let mut readers: Vec<SstableReader> = Vec::new();
        while pending.len() > 0
            invariant
                readers@.len() + pending@.len() == n,
                orig == tables@,
                n == orig.len(),
                forall|i: int| 0 <= i < pending@.len() ==> pending@[i] == orig[readers@.len() + i],
                forall|i: int| 0 <= i < readers@.len() ==> opens(#[trigger] orig[i]@),
                forall|i: int|
                    0 <= i < readers@.len() ==> (#[trigger] readers@[i]).data() == orig[i]@
                        && open_table(orig[i]@) == TableOpen::Opened(readers@[i].entries()),
            decreases pending@.len(),
        {
            let data = pending.remove(0);
            let ghost k = readers@.len();
            assert(data == orig[k as int]);
            match SstableReader::open(data) {
                Ok(reader) => {
                    readers.push(reader);
                },
                Err(e) => {
                    proof {
                        assert(first_unopened(orig, k as int));
                    }
                    return Err(e);
                },
            }
        }
        proof {
            assert forall|i: int| 0 <= i < n implies !first_unopened(orig, i) by {
                assert(opens(orig[i]@));
            }
        }
        let mut iters: Vec<Vec<Result<SstableRecord>>> = Vec::new();
        let mut k: usize = 0;
        while k < readers.len()
            invariant
                readers@.len() == n,
                n == orig.len(),
                k <= n,
                iters@.len() == k,
                forall|i: int|
                    0 <= i < readers@.len() ==> (#[trigger] readers@[i]).data() == orig[i]@
                        && open_table(orig[i]@) == TableOpen::Opened(readers@[i].entries()),
                forall|i: int| 0 <= i < k ==> scans_to(orig[i]@, run_view(#[trigger] iters@[i]@)),
            decreases n - k,
        {
            let items = scan_items(&readers[k]);
            iters.push(items);
            k = k + 1;
        }
        let ghost runs = Seq::new(n, |i: int| run_view(iters@[i]@));
        assert forall|i: int| 0 <= i < runs.len() implies scans_to(orig[i]@, #[trigger] runs[i]) by {
            assert(scans_to(orig[i]@, run_view(iters@[i]@)));
        }
        let merger = match MergeIterator::new(iters) {
            Ok(m) => m,
            Err(e) => {
                proof {
                    let i = choose|i: int|
                        #![trigger run_view(iters@[i]@)]
                        0 <= i < iters@.len() && stuck(run_view(iters@[i]@)) && run_view(
                            iters@[i]@,
                        )[0] == Err::<RecordView, DzongError>(e) && forall|j: int|
                            0 <= j < i ==> !stuck(#[trigger] run_view(iters@[j]@));
                    assert(runs[i] == run_view(iters@[i]@));
                    assert forall|j: int| 0 <= j < i implies !stuck(#[trigger] runs[j]) by {
                        assert(runs[j] == run_view(iters@[j]@));
                    }
                    assert(first_stuck(runs, i));
                }
                let res = Err(e);
                proof {
                    assert(compaction_outcome(
                        self.base_path(),
                        (job.from_level, job.to_level, job.input_files@),
                        runs,
                        *old(version_set),
                        *version_set,
                        res,
                    ));
                }
                return res;
            },
        };
        proof {
            assert(merger.runs() =~= runs);
            assert forall|i: int| 0 <= i < runs.len() implies !stuck(#[trigger] runs[i]) by {
                if stuck(runs[i]) {
                    assert(stuck(run_view(iters@[i]@)));
                }
            }
        }
        let new_id = version_set.next_file_id();
        let output_path = self.output_path(new_id);
        let merged = match merger.collect() {
            Ok(v) => v,
            Err(e) => {
                let res = Err(e);
                proof {
                    assert(compaction_outcome(
                        self.base_path(),
                        (job.from_level, job.to_level, job.input_files@),
                        runs,
                        *old(version_set),
                        *version_set,
                        res,
                    ));
                }
                return res;
            },
        };
        let ghost out = records_view(merged@);
        assert(merge_all(runs) == Ok::<Seq<RecordView>, DzongError>(out));
        let live = drop_tombstones(&merged);
        let ghost lv = records_view(live@);
        let bytes = match write_table(&live) {
            Ok(b) => b,
            Err(e) => {
                let res = Err(e);
                proof {
                    assert(compaction_outcome(
                        self.base_path(),
                        (job.from_level, job.to_level, job.input_files@),
                        runs,
                        *old(version_set),
                        *version_set,
                        res,
                    ));
                }
                return res;
            },
        };
        let empty: Vec<u8> = Vec::new();
        let min_key = if live.len() > 0 {
            live[0].key.clone()
        } else {
            Key::new(empty.as_slice())
        };
        let max_key = if live.len() > 0 {
            live[live.len() - 1].key.clone()
        } else {
            Key::new(empty.as_slice())
        };
        let size = bytes.len() as u64;
        let metadata = FileMetadata { id: new_id, path: output_path, min_key, max_key, size };
        let add = VersionEdit::AddFile { level: job.to_level, metadata };
        proof {
            assert(add@ == EditView::AddFile {
                level: job.to_level,
                file: output_file(self.base_path(), new_id, lv, bytes@.len()),
            });
        }
        let current = version_set.current();
        let mut edits: Vec<VersionEdit> = Vec::new();
        assert(edits_view(edits@) =~= Seq::<EditView>::empty());
        push_removals(&*current, job.from_level, &job.input_files, &mut edits);
        if job.to_level != job.from_level {
            push_removals(&*current, job.to_level, &job.input_files, &mut edits);
        }
        let ghost removals = edits_view(edits@);
        edits.push(add);
        proof {
            assert(removals =~= removal_edits(
                old(version_set).files(),
                job.from_level,
                job.to_level,
                job.input_files@,
            ));
            assert(edits_view(edits@) =~= removals.push(add@));
        }
        let res = Ok((edits, bytes));
        proof {
            assert(compaction_outcome(
                self.base_path(),
                (job.from_level, job.to_level, job.input_files@),
                runs,
                *old(version_set),
                *version_set,
                res,
            ));
        }
        res
    }
}

} // verus!
