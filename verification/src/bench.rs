//! Runs of many workers at once: how they are started and what they report.
use crate::text;
use vstd::prelude::*;

verus! {

/// The options of a run of many workers.
#[derive(Clone, Copy, Debug, PartialEq, Eq, Structural)]
pub struct BenchOptions {
    pub log_m: u64,
    pub n_rows: u64,
    pub cell_len_ext: u64,
    pub runs_per_worker: u64,
    pub max_num_variables_to_send_coeffs: u64,
    pub initial_folding_factor: u64,
    pub subsequent_folding_factor: u64,
    pub cpu: bool,
    pub gpu: bool,
}

/// The words that a worker is started with.
pub open spec fn child_args(options: BenchOptions) -> Seq<Seq<char>> {
    let words = seq![
        "--log-m"@,
        text::decimal_spec(options.log_m as nat),
        "--n-rows"@,
        text::decimal_spec(options.n_rows as nat),
        "--cell-len-ext"@,
        text::decimal_spec(options.cell_len_ext as nat),
        "--prove"@,
        "--runs"@,
        text::decimal_spec(options.runs_per_worker as nat),
        "--csv"@,
        "--max-num-variables-to-send-coeffs"@,
        text::decimal_spec(options.max_num_variables_to_send_coeffs as nat),
        "--initial-folding-factor"@,
        text::decimal_spec(options.initial_folding_factor as nat),
        "--subsequent-folding-factor"@,
        text::decimal_spec(options.subsequent_folding_factor as nat),
    ];
    let with_cpu = if options.cpu {
        words.push("--cpu"@)
    } else {
        words
    };
    if options.gpu {
        with_cpu.push("--gpu"@)
    } else {
        with_cpu
    }
}

/// The words that a worker is started with.
pub fn benchmark_child_args(options: BenchOptions) -> (r: Vec<String>)
    ensures
        text::texts(r@) == child_args(options),
{
    let mut words: Vec<String> = Vec::new();
    words.push("--log-m".to_owned());
    words.push(text::decimal(options.log_m));
    words.push("--n-rows".to_owned());
    words.push(text::decimal(options.n_rows));
    words.push("--cell-len-ext".to_owned());
    words.push(text::decimal(options.cell_len_ext));
    words.push("--prove".to_owned());
    words.push("--runs".to_owned());
    words.push(text::decimal(options.runs_per_worker));
    words.push("--csv".to_owned());
    words.push("--max-num-variables-to-send-coeffs".to_owned());
    words.push(text::decimal(options.max_num_variables_to_send_coeffs));
    words.push("--initial-folding-factor".to_owned());
    words.push(text::decimal(options.initial_folding_factor));
    words.push("--subsequent-folding-factor".to_owned());
    words.push(text::decimal(options.subsequent_folding_factor));
    if options.cpu {
        words.push("--cpu".to_owned());
    }
    if options.gpu {
        words.push("--gpu".to_owned());
    }
    assert(text::texts(words@) =~= child_args(options));
    words
}

/// The cores that a worker is held to: as many as it has threads, after those of the workers
/// before it.
pub fn core_range(worker_id: u64, threads: u64) -> (r: String)
    requires
        threads > 0,
        (worker_id + 1) * threads <= u64::MAX,
    ensures
        r@ == text::decimal_spec((worker_id * threads) as nat) + "-"@ + text::decimal_spec(
            ((worker_id + 1) * threads - 1) as nat,
        ),
{
    proof {
        assert((worker_id + 1) * threads == worker_id * threads + threads && worker_id * threads >= 0)
            by (nonlinear_arith);
    }
    let start: u64 = worker_id * threads;
    let end: u64 = start + (threads - 1);
    let mut range = text::decimal(start);
    range.append("-");
    range.append(text::decimal(end).as_str());
    range
}

/// The cores of one worker are not those of another: the ranges follow one another.
pub proof fn law_core_ranges_are_disjoint(first: nat, second: nat, threads: nat)
    requires
        first < second,
    ensures
        (first + 1) * threads - 1 < second * threads,
{
    assert((first + 1) * threads <= second * threads) by (nonlinear_arith)
        requires
            first + 1 <= second,
    ;
}

/// Whether a character is white space.
pub open spec fn is_space(c: char) -> bool {
    let x = c as u32;
    ||| 0x9 <= x <= 0xd
    ||| x == 0x20
    ||| x == 0x85
    ||| x == 0xa0
    ||| x == 0x1680
    ||| 0x2000 <= x <= 0x200a
    ||| x == 0x2028
    ||| x == 0x2029
    ||| x == 0x202f
    ||| x == 0x205f
    ||| x == 0x3000
}

/// Whether a line holds nothing but white space.
pub open spec fn blank(line: Seq<char>) -> bool {
    forall|i: int| 0 <= i < line.len() ==> is_space(#[trigger] line[i])
}

/// Part `i` of a text that was cut at its line feeds, without the carriage return before the line
/// feed that ends it.
pub open spec fn line_at(parts: Seq<Seq<char>>, i: int) -> Seq<char> {
    if i < parts.len() - 1 && parts[i].len() > 0 && parts[i].last() == '\r' {
        parts[i].drop_last()
    } else {
        parts[i]
    }
}

/// Those of the first `n` lines that are not blank.
pub open spec fn lines_up_to(parts: Seq<Seq<char>>, n: nat) -> Seq<Seq<char>>
    decreases n,
{
    if n == 0 {
        Seq::empty()
    } else if blank(line_at(parts, n - 1)) {
        lines_up_to(parts, (n - 1) as nat)
    } else {
        lines_up_to(parts, (n - 1) as nat).push(line_at(parts, n - 1))
    }
}

/// The lines of a text that are not blank.
pub open spec fn lines(text: Seq<char>) -> Seq<Seq<char>> {
    let parts = text::pieces(text, '\n');
    lines_up_to(parts, parts.len())
}

fn is_blank(line: &str) -> (r: bool)
    ensures
        r == blank(line@),
{
    let chars = text::chars_of(line);
    let mut i: usize = 0;
    while i < chars.len()
        invariant
            chars@ == line@,
            i <= chars@.len(),
            forall|j: int| 0 <= j < i ==> is_space(#[trigger] line@[j]),
        decreases chars@.len() - i,
    {
        let x: u32 = chars[i] as u32;
        let space = (0x9 <= x && x <= 0xd) || x == 0x20 || x == 0x85 || x == 0xa0 || x == 0x1680 || (0x2000 <= x
            && x <= 0x200a) || x == 0x2028 || x == 0x2029 || x == 0x202f || x == 0x205f || x == 0x3000;
        if !space {
            assert(!is_space(line@[i as int]));
            return false;
        }
        i = i + 1;
    }
    true
}

/// The lines of a text that are not blank.
pub fn nonblank_lines(text: &str) -> (r: Vec<String>)
    ensures
        text::texts(r@) == lines(text@),
{
    let parts = text::split(text, '\n');
    let ghost p = text::texts(parts@);
    let mut out: Vec<String> = Vec::new();
    let mut i: usize = 0;
    assert(text::texts(out@) =~= lines_up_to(p, 0));
    while i < parts.len()
        invariant
            p == text::texts(parts@),
            i <= parts@.len(),
            text::texts(out@) == lines_up_to(p, i as nat),
        decreases parts@.len() - i,
    {
        let part = parts[i].as_str();
        let n: usize = part.unicode_len();
        assert(part@ == p[i as int]);
        let line = if i + 1 < parts.len() && n > 0 && part.get_char(n - 1) == '\r' {
            part.substring_char(0, n - 1)
        } else {
            part
        };
        assert(line@ =~= line_at(p, i as int));
        let ghost before = out@;
        if !is_blank(line) {
            out.push(line.to_owned());
            assert(text::texts(out@) =~= text::texts(before).push(line@));
        }
        i = i + 1;
    }
    out
}

/// Why the report of a worker could not be read.
#[derive(Clone, Debug, PartialEq, Eq)]
pub enum CsvError {
    /// There is no line at all.
    MissingHeader,
    /// A line has another number of cells than the header.
    CellCount { cells: usize, header_cells: usize, line: String },
    /// A column is not there.
    MissingColumn { name: String },
}

/// The report of a worker: the names of its columns, and the lines below them.
#[derive(Clone, Debug, PartialEq, Eq)]
pub struct CsvReport {
    pub headers: Vec<String>,
    pub lines: Vec<String>,
}

impl CsvReport {
    /// Whether this is the report that a text holds.
    pub open spec fn reads(self, text: Seq<char>) -> bool {
        &&& lines(text).len() > 0
        &&& text::texts(self.headers@) == text::pieces(lines(text)[0], ',')
        &&& text::texts(self.lines@) == lines(text).skip(1)
    }

    /// The cells of line `i`.
    pub fn row(&self, i: usize) -> (r: Result<Vec<String>, CsvError>)
        requires
            i < self.lines@.len(),
        ensures
            r is Ok <==> text::pieces(self.lines@[i as int]@, ',').len() == self.headers@.len(),
            r matches Ok(cells) ==> text::texts(cells@) == text::pieces(self.lines@[i as int]@, ','),
            r matches Err(e) ==> {
                &&& e matches CsvError::CellCount { cells, header_cells, line }
                &&& cells == text::pieces(self.lines@[i as int]@, ',').len()
                &&& header_cells == self.headers@.len()
                &&& line@ == self.lines@[i as int]@
            },
    {
        let cells = text::split(self.lines[i].as_str(), ',');
        assert(text::texts(cells@).len() == cells@.len());
        if cells.len() != self.headers.len() {
            return Err(
                CsvError::CellCount {
                    cells: cells.len(),
                    header_cells: self.headers.len(),
                    line: self.lines[i].clone(),
                },
            );
        }
        Ok(cells)
    }

    /// The column of a name: the last one that has it.
    pub fn column(&self, name: &str) -> (r: Option<usize>)
        ensures
            r is None <==> forall|i: int| 0 <= i < self.headers@.len() ==> (#[trigger] self.headers@[i])@ != name@,
            r matches Some(at) ==> {
                &&& at < self.headers@.len()
                &&& self.headers@[at as int]@ == name@
                &&& forall|i: int| at < i < self.headers@.len() ==> (#[trigger] self.headers@[i])@ != name@
            },
    {
        let wanted = name.to_owned();
        let mut i: usize = self.headers.len();
        while i > 0
            invariant
                wanted@ == name@,
                i <= self.headers@.len(),
                forall|j: int| i <= j < self.headers@.len() ==> (#[trigger] self.headers@[j])@ != name@,
            decreases i,
        {
            i = i - 1;
            if self.headers[i] == wanted {
                return Some(i);
            }
        }
        None
    }

    /// The cell of a row in the column of a name, an error where there is no such column.
    pub fn cell(&self, cells: &Vec<String>, name: &str) -> (r: Result<String, CsvError>)
        requires
            cells@.len() == self.headers@.len(),
        ensures
            r is Ok <==> exists|i: int| 0 <= i < self.headers@.len() && (#[trigger] self.headers@[i])@ == name@,
            r matches Ok(cell) ==> exists|at: int|
                {
                    &&& 0 <= at < cells@.len()
                    &&& (#[trigger] self.headers@[at])@ == name@
                    &&& forall|i: int| at < i < self.headers@.len() ==> (#[trigger] self.headers@[i])@ != name@
                    &&& cell@ == cells@[at]@
                },
            r matches Err(e) ==> e matches CsvError::MissingColumn { name: missing } && missing@ == name@,
    {
        match self.column(name) {
            Some(at) => {
                assert(self.headers@[at as int]@ == name@);
                Ok(cells[at].clone())
            },
            None => Err(CsvError::MissingColumn { name: name.to_owned() }),
        }
    }

    /// The cell of a row in the column of a name, none where there is no such column.
    pub fn optional_cell(&self, cells: &Vec<String>, name: &str) -> (r: Option<String>)
        requires
            cells@.len() == self.headers@.len(),
        ensures
            r is Some <==> exists|i: int| 0 <= i < self.headers@.len() && (#[trigger] self.headers@[i])@ == name@,
            r matches Some(cell) ==> exists|at: int|
                {
                    &&& 0 <= at < cells@.len()
                    &&& (#[trigger] self.headers@[at])@ == name@
                    &&& forall|i: int| at < i < self.headers@.len() ==> (#[trigger] self.headers@[i])@ != name@
                    &&& cell@ == cells@[at]@
                },
    {
        match self.column(name) {
            Some(at) => {
                assert(self.headers@[at as int]@ == name@);
                Some(cells[at].clone())
            },
            None => None,
        }
    }
}

/// Reads the report of a worker: the first line that is not blank names the columns.
pub fn parse_child_csv(text: &str) -> (r: Result<CsvReport, CsvError>)
    ensures
        r is Ok <==> lines(text@).len() > 0,
        r matches Ok(report) ==> report.reads(text@),
        r matches Err(e) ==> e is MissingHeader,
{
    let all = nonblank_lines(text);
    let ghost t = text::texts(all@);
    assert(t.len() == all@.len());
    if all.len() == 0 {
        return Err(CsvError::MissingHeader);
    }
    assert(t[0] == all@[0]@);
    let headers = text::split(all[0].as_str(), ',');
    let mut below: Vec<String> = Vec::new();
    let mut i: usize = 1;
    while i < all.len()
        invariant
            1 <= i <= all@.len(),
            below@.len() == i - 1,
            forall|j: int| 0 <= j < below@.len() ==> (#[trigger] below@[j])@ == all@[j + 1]@,
        decreases all@.len() - i,
    {
        below.push(all[i].clone());
        i = i + 1;
    }
    assert(text::texts(below@) =~= t.skip(1));
    Ok(CsvReport { headers, lines: below })
}

/// The peak memory that a run of a worker reports.
#[derive(Clone, Copy, Debug, PartialEq, Eq, Structural)]
pub struct WorkerPeak {
    pub worker_id: usize,
    pub peak_rss_bytes: u64,
}

/// The largest peak that a worker reports in the first `n` runs, zero where it has none.
pub open spec fn worker_peak(runs: Seq<WorkerPeak>, n: nat, worker_id: usize) -> u64
    decreases n,
{
    if n == 0 {
        0
    } else {
        let before = worker_peak(runs, (n - 1) as nat, worker_id);
        if runs[n - 1].worker_id == worker_id && runs[n - 1].peak_rss_bytes > before {
            runs[n - 1].peak_rss_bytes
        } else {
            before
        }
    }
}

/// Whether run `i` is the first of its worker.
pub open spec fn is_first(runs: Seq<WorkerPeak>, i: int) -> bool {
    forall|j: int| 0 <= j < i ==> (#[trigger] runs[j]).worker_id != runs[i].worker_id
}

/// The peaks of the workers that report in the first `n` runs, added up: each worker once, with
/// its largest peak over all runs.
pub open spec fn peak_sum(runs: Seq<WorkerPeak>, n: nat) -> int
    decreases n,
{
    if n == 0 {
        0
    } else {
        peak_sum(runs, (n - 1) as nat) + if is_first(runs, n - 1) {
            worker_peak(runs, runs.len(), runs[n - 1].worker_id) as int
        } else {
            0
        }
    }
}

/// The largest peak of a worker.
fn peak_of(runs: &Vec<WorkerPeak>, worker_id: usize) -> (r: u64)
    ensures
        r == worker_peak(runs@, runs@.len(), worker_id),
{
    let mut peak: u64 = 0;
    let mut i: usize = 0;
    while i < runs.len()
        invariant
            i <= runs@.len(),
            peak == worker_peak(runs@, i as nat, worker_id),
        decreases runs@.len() - i,
    {
        if runs[i].worker_id == worker_id && runs[i].peak_rss_bytes > peak {
            peak = runs[i].peak_rss_bytes;
        }
        i = i + 1;
    }
    peak
}

proof fn lemma_peak_sum_monotone(runs: Seq<WorkerPeak>, m: nat, n: nat)
    requires
        m <= n,
    ensures
        0 <= peak_sum(runs, m) <= peak_sum(runs, n),
    decreases n,
{
    if n > 0 {
        if m < n {
            lemma_peak_sum_monotone(runs, m, (n - 1) as nat);
        } else {
            lemma_peak_sum_monotone(runs, (m - 1) as nat, (n - 1) as nat);
        }
    }
}

/// The peaks of all workers added up, each worker with its largest.
pub fn sum_worker_peak_rss_bytes(runs: &Vec<WorkerPeak>) -> (r: u64)
    requires
        peak_sum(runs@, runs@.len()) <= u64::MAX,
    ensures
        r == peak_sum(runs@, runs@.len()),
{
    let mut total: u64 = 0;
    let mut i: usize = 0;
    while i < runs.len()
        invariant
            i <= runs@.len(),
            peak_sum(runs@, runs@.len()) <= u64::MAX,
            total == peak_sum(runs@, i as nat),
        decreases runs@.len() - i,
    {
        let mut fresh = true;
        let mut j: usize = 0;
        while j < i
            invariant
                j <= i < runs@.len(),
                fresh == (forall|l: int| 0 <= l < j ==> (#[trigger] runs@[l]).worker_id != runs@[i as int].worker_id),
            decreases i - j,
        {
            if runs[j].worker_id == runs[i].worker_id {
                fresh = false;
            }
            j = j + 1;
        }
        proof {
            lemma_peak_sum_monotone(runs@, (i + 1) as nat, runs@.len());
        }
        if fresh {
            total = total + peak_of(runs, runs[i].worker_id);
        }
        i = i + 1;
    }
    total
}

/// The peak of a worker is the largest of its runs, and nothing where it has none.
pub proof fn law_worker_peak_is_largest(runs: Seq<WorkerPeak>, n: nat, worker_id: usize, other: int)
    requires
        n <= runs.len(),
    ensures
        forall|j: int|
            0 <= j < n && (#[trigger] runs[j]).worker_id == worker_id ==> runs[j].peak_rss_bytes <= worker_peak(
                runs,
                n,
                worker_id,
            ),
        (0 <= other && forall|j: int|
            0 <= j < n && (#[trigger] runs[j]).worker_id == worker_id ==> runs[j].peak_rss_bytes <= other)
            ==> worker_peak(runs, n, worker_id) <= other,
    decreases n,
{
    if n > 0 {
        law_worker_peak_is_largest(runs, (n - 1) as nat, worker_id, other);
        assert(runs[n - 1].worker_id == runs[n - 1].worker_id);
    }
}

proof fn lemma_worker_peak_prefix(a: Seq<WorkerPeak>, b: Seq<WorkerPeak>, n: nat, worker_id: usize)
    requires
        forall|i: int| 0 <= i < n ==> #[trigger] a[i] == b[i],
    ensures
        worker_peak(a, n, worker_id) == worker_peak(b, n, worker_id),
    decreases n,
{
    if n > 0 {
        lemma_worker_peak_prefix(a, b, (n - 1) as nat, worker_id);
        assert(a[n - 1] == b[n - 1]);
    }
}

/// Whether one of the first `n` runs is of the worker.
pub open spec fn has_run(runs: Seq<WorkerPeak>, n: int, worker_id: usize) -> bool {
    exists|i: int| 0 <= i < n && (#[trigger] runs[i]).worker_id == worker_id
}

proof fn lemma_peak_sum_grows(runs: Seq<WorkerPeak>, run: WorkerPeak, n: nat)
    requires
        n <= runs.len(),
    ensures
        peak_sum(runs.push(run), n) == peak_sum(runs, n) + if has_run(runs, n as int, run.worker_id) {
            worker_peak(runs.push(run), runs.len() + 1, run.worker_id) - worker_peak(
                runs,
                runs.len(),
                run.worker_id,
            )
        } else {
            0
        },
    decreases n,
{
    if n > 0 {
        let all = runs.push(run);
        let m: int = n - 1;
        lemma_peak_sum_grows(runs, run, m as nat);
        let id = runs[m].worker_id;
        assert(all[m] == runs[m]);
        assert(is_first(all, m) == is_first(runs, m)) by {
            if is_first(all, m) {
                assert forall|j: int| 0 <= j < m implies (#[trigger] runs[j]).worker_id != id by {
                    assert(all[j] == runs[j]);
                }
            }
            if is_first(runs, m) {
                assert forall|j: int| 0 <= j < m implies (#[trigger] all[j]).worker_id != id by {
                    assert(all[j] == runs[j]);
                }
            }
        }
        lemma_worker_peak_prefix(all, runs, runs.len(), id);
        assert(all[runs.len() as int] == run);
        if id == run.worker_id {
            assert(has_run(runs, n as int, id));
            assert(has_run(runs, m, id) == !is_first(runs, m)) by {
                if !is_first(runs, m) {
                    let j = choose|j: int| 0 <= j < m && (#[trigger] runs[j]).worker_id == id;
                    assert(runs[j].worker_id == id);
                }
            }
        } else {
            assert(has_run(runs, n as int, run.worker_id) == has_run(runs, m, run.worker_id)) by {
                if has_run(runs, n as int, run.worker_id) {
                    let j = choose|j: int| 0 <= j < n && (#[trigger] runs[j]).worker_id == run.worker_id;
                    assert(0 <= j < m && runs[j].worker_id == run.worker_id);
                }
                if has_run(runs, m, run.worker_id) {
                    let j = choose|j: int| 0 <= j < m && (#[trigger] runs[j]).worker_id == run.worker_id;
                    assert(runs[j].worker_id == run.worker_id);
                }
            }
        }
    }
}

/// Every worker counts once, with its largest run: a run of a worker that has none yet adds its peak,
/// another one what it exceeds the others of its worker by.
pub proof fn law_peaks_add_up_by_worker(runs: Seq<WorkerPeak>, run: WorkerPeak)
    ensures
        peak_sum(Seq::empty(), 0) == 0,
        !has_run(runs, runs.len() as int, run.worker_id) ==> peak_sum(runs.push(run), runs.len() + 1) == peak_sum(
            runs,
            runs.len(),
        ) + run.peak_rss_bytes,
        has_run(runs, runs.len() as int, run.worker_id) && run.peak_rss_bytes > worker_peak(
            runs,
            runs.len(),
            run.worker_id,
        ) ==> peak_sum(runs.push(run), runs.len() + 1) == peak_sum(runs, runs.len()) + run.peak_rss_bytes
            - worker_peak(runs, runs.len(), run.worker_id),
        has_run(runs, runs.len() as int, run.worker_id) && run.peak_rss_bytes <= worker_peak(
            runs,
            runs.len(),
            run.worker_id,
        ) ==> peak_sum(runs.push(run), runs.len() + 1) == peak_sum(runs, runs.len()),
{
    let all = runs.push(run);
    let n: nat = runs.len();
    lemma_peak_sum_grows(runs, run, n);
    lemma_worker_peak_prefix(all, runs, n, run.worker_id);
    assert(all[n as int] == run);
    assert(is_first(all, n as int) == !has_run(runs, n as int, run.worker_id)) by {
        if !is_first(all, n as int) {
            let j = choose|j: int| 0 <= j < n && (#[trigger] all[j]).worker_id == run.worker_id;
            assert(runs[j].worker_id == run.worker_id);
        }
        if has_run(runs, n as int, run.worker_id) {
            let j = choose|j: int| 0 <= j < n && (#[trigger] runs[j]).worker_id == run.worker_id;
            assert(all[j].worker_id == run.worker_id);
        }
    }
    if !has_run(runs, n as int, run.worker_id) {
        assert forall|j: int| 0 <= j < n && (#[trigger] runs[j]).worker_id == run.worker_id implies
            runs[j].peak_rss_bytes <= 0 by {
            assert(has_run(runs, n as int, run.worker_id));
        }
        law_worker_peak_is_largest(runs, n, run.worker_id, 0);
    }
}

proof fn lemma_lines_up_to_joined(a: Seq<Seq<char>>, b: Seq<Seq<char>>, n: nat)
    requires
        n <= b.len(),
        b.len() > 0,
    ensures
        lines_up_to(a + b, a.len() + n) == lines_up_to(a + b, a.len()) + lines_up_to(b, n),
    decreases n,
{
    let all = a + b;
    if n == 0 {
        assert(lines_up_to(all, a.len()) + lines_up_to(b, 0) =~= lines_up_to(all, a.len()));
    } else {
        lemma_lines_up_to_joined(a, b, (n - 1) as nat);
        assert(all[(a.len() + n - 1) as int] == b[n - 1]);
        assert(line_at(all, a.len() + n - 1) == line_at(b, n - 1));
        assert(lines_up_to(all, a.len() + n) =~= lines_up_to(all, a.len()) + lines_up_to(b, n));
    }
}

/// The lines of a text that starts with a line: that line, without a return at its end, unless there is
/// nothing but spaces in it; and then the lines of the rest.
pub proof fn law_lines_start_with_first(line: Seq<char>, rest: Seq<char>)
    requires
        forall|i: int| 0 <= i < line.len() ==> #[trigger] line[i] != '\n',
        line.len() > 0 ==> line.last() != '\r',
    ensures
        blank(line) ==> lines(line.push('\n') + rest) == lines(rest),
        !blank(line) ==> lines(line.push('\n') + rest) == seq![line] + lines(rest),
        !blank(line) ==> lines(line.push('\r').push('\n') + rest) == seq![line] + lines(rest),
{
    lemma_first_line(line, line, rest);
    let returned = line.push('\r');
    assert(returned.drop_last() =~= line);
    assert forall|i: int| 0 <= i < returned.len() implies #[trigger] returned[i] != '\n' by {
        if i < line.len() {
            assert(returned[i] == line[i]);
        }
    }
    lemma_first_line(returned, line, rest);
}

proof fn lemma_first_line(raw: Seq<char>, line: Seq<char>, rest: Seq<char>)
    requires
        forall|i: int| 0 <= i < raw.len() ==> #[trigger] raw[i] != '\n',
        raw.len() > 0 && raw.last() == '\r' ==> line == raw.drop_last(),
        !(raw.len() > 0 && raw.last() == '\r') ==> line == raw,
    ensures
        blank(line) ==> lines(raw.push('\n') + rest) == lines(rest),
        !blank(line) ==> lines(raw.push('\n') + rest) == seq![line] + lines(rest),
{
    text::law_pieces_concatenate(raw, rest, '\n');
    text::law_whole_text_is_one_piece(raw, '\n');
    text::law_pieces_join(rest, '\n');
    let a = seq![raw];
    let b = text::pieces(rest, '\n');
    lemma_lines_up_to_joined(a, b, b.len());
    let all = a + b;
    assert(all[0] == raw);
    assert(line_at(all, 0) == line);
    assert(lines_up_to(all, 0) == Seq::<Seq<char>>::empty());
    assert(lines_up_to(all, 1) =~= if blank(line) {
        Seq::empty()
    } else {
        seq![line]
    });
    if blank(line) {
        assert(lines_up_to(all, 1) + lines_up_to(b, b.len()) =~= lines_up_to(b, b.len()));
    }
}

/// The last line of a text, which no break ends, is kept as it is unless it is blank.
pub proof fn law_last_line_is_kept(line: Seq<char>)
    requires
        forall|i: int| 0 <= i < line.len() ==> #[trigger] line[i] != '\n',
    ensures
        blank(line) ==> lines(line) == Seq::<Seq<char>>::empty(),
        !blank(line) ==> lines(line) == seq![line],
{
    text::law_whole_text_is_one_piece(line, '\n');
    let parts = text::pieces(line, '\n');
    assert(line_at(parts, 0) == line);
    assert(lines_up_to(parts, 0) == Seq::<Seq<char>>::empty());
    assert(lines_up_to(parts, 1) =~= if blank(line) {
        Seq::empty()
    } else {
        seq![line]
    });
}

/// The arguments of a worker give back its options: every number behind its flag, and the two switches at
/// the end.
pub proof fn law_worker_arguments_read_back(options: BenchOptions)
    ensures
        child_args(options)[0] == "--log-m"@,
        text::number(child_args(options)[1]) == options.log_m,
        child_args(options)[2] == "--n-rows"@,
        text::number(child_args(options)[3]) == options.n_rows,
        child_args(options)[4] == "--cell-len-ext"@,
        text::number(child_args(options)[5]) == options.cell_len_ext,
        child_args(options)[6] == "--prove"@,
        child_args(options)[7] == "--runs"@,
        text::number(child_args(options)[8]) == options.runs_per_worker,
        child_args(options)[9] == "--csv"@,
        child_args(options)[10] == "--max-num-variables-to-send-coeffs"@,
        text::number(child_args(options)[11]) == options.max_num_variables_to_send_coeffs,
        child_args(options)[12] == "--initial-folding-factor"@,
        text::number(child_args(options)[13]) == options.initial_folding_factor,
        child_args(options)[14] == "--subsequent-folding-factor"@,
        text::number(child_args(options)[15]) == options.subsequent_folding_factor,
        child_args(options).skip(16) == (if options.cpu {
            seq!["--cpu"@]
        } else {
            seq![]
        }) + (if options.gpu {
            seq!["--gpu"@]
        } else {
            seq![]
        }),
{
    text::law_decimal_writes_number(options.log_m as nat);
    text::law_decimal_writes_number(options.n_rows as nat);
    text::law_decimal_writes_number(options.cell_len_ext as nat);
    text::law_decimal_writes_number(options.runs_per_worker as nat);
    text::law_decimal_writes_number(options.max_num_variables_to_send_coeffs as nat);
    text::law_decimal_writes_number(options.initial_folding_factor as nat);
    text::law_decimal_writes_number(options.subsequent_folding_factor as nat);
    assert(child_args(options).skip(16) =~= (if options.cpu {
        seq!["--cpu"@]
    } else {
        seq![]
    }) + (if options.gpu {
        seq!["--gpu"@]
    } else {
        seq![]
    }));
}

/// A table that is read gives the text back, but for blank lines and the breaks: its headers joined are
/// the first line, and its lines are the others.
pub proof fn law_table_gives_lines_back(table: CsvReport, text: Seq<char>)
    requires
        table.reads(text),
    ensures
        seq![text::joined(text::texts(table.headers@), ',')] + text::texts(table.lines@) == lines(text),
{
    text::law_pieces_join(lines(text)[0], ',');
    assert(seq![text::joined(text::texts(table.headers@), ',')] + text::texts(table.lines@) =~= lines(text));
}

/// The codes of the characters that are spaces.
pub open spec fn space_codes() -> Seq<u32> {
    seq![
        9u32,
        10,
        11,
        12,
        13,
        32,
        133,
        160,
        5760,
        8192,
        8193,
        8194,
        8195,
        8196,
        8197,
        8198,
        8199,
        8200,
        8201,
        8202,
        8232,
        8233,
        8239,
        8287,
        12288,
    ]
}

/// A line is blank where every character of it is one of the twenty-five spaces.
pub proof fn law_spaces_are_listed(c: char)
    ensures
        is_space(c) <==> space_codes().contains(c as u32),
{
    let x = c as u32;
    let codes = space_codes();
    if is_space(c) {
        let i: int = if x <= 13 {
            x - 9
        } else if x == 32 {
            5
        } else if x == 133 {
            6
        } else if x == 160 {
            7
        } else if x == 5760 {
            8
        } else if x <= 8202 {
            x - 8192 + 9
        } else if x == 8232 {
            20
        } else if x == 8233 {
            21
        } else if x == 8239 {
            22
        } else if x == 8287 {
            23
        } else {
            24
        };
        assert(codes[i] == x);
    }
    if codes.contains(x) {
        let i = choose|i: int| 0 <= i < codes.len() && codes[i] == x;
        assert(0 <= i < 25);
    }
}

} // verus!
