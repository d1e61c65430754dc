//! What a benchmark of a model needs: samples, and rows of measurements.
use crate::model::inputs::shorter;
use crate::text::{joined, same_text};
use vstd::prelude::*;
use vstd::slice::slice_to_vec;
use vstd::string::*;

verus! {

// ---------------------------------------------------------------------------------------
// Numbers in arguments
// ---------------------------------------------------------------------------------------

/// The characters that Unicode counts as white space.
pub open spec fn white_space(c: char) -> bool {
    let n = c as u32;
    ||| 0x9 <= n <= 0xd
    ||| n == 0x20
    ||| n == 0x85
    ||| n == 0xa0
    ||| n == 0x1680
    ||| 0x2000 <= n <= 0x200a
    ||| n == 0x2028
    ||| n == 0x2029
    ||| n == 0x202f
    ||| n == 0x205f
    ||| n == 0x3000
}

fn is_white_space(c: char) -> (r: bool)
    ensures
        r == white_space(c),
{
    let n = c as u32;
    (0x9 <= n && n <= 0xd) || n == 0x20 || n == 0x85 || n == 0xa0 || n == 0x1680 || (0x2000 <= n
        && n <= 0x200a) || n == 0x2028 || n == 0x2029 || n == 0x202f || n == 0x205f || n == 0x3000
}

/// The text without the white space at its end.
pub open spec fn trimmed_end(s: Seq<char>) -> Seq<char>
    decreases s.len(),
{
    if s.len() > 0 && white_space(s.last()) {
        trimmed_end(s.drop_last())
    } else {
        s
    }
}

/// The text without the white space at its start.
pub open spec fn trimmed_start(s: Seq<char>) -> Seq<char>
    decreases s.len(),
{
    if s.len() > 0 && white_space(s[0]) {
        trimmed_start(s.skip(1))
    } else {
        s
    }
}

/// Why a text is no number.
pub open spec fn number_fault(s: Seq<char>) -> Seq<char> {
    if s.len() == 0 {
        "cannot parse integer from empty string"@
    } else if number(digits_of(s)) is Invalid {
        "invalid digit found in string"@
    } else {
        "number too large to fit in target type"@
    }
}

/// The part of a number behind its sign.
pub open spec fn digits_of(s: Seq<char>) -> Seq<char> {
    if s.len() > 1 && s[0] == '+' {
        s.skip(1)
    } else {
        s
    }
}

/// What a sequence of digits stands for.
pub enum Number {
    Value(nat),
    Invalid,
    TooLarge,
}

/// What the digits stand for, read from the left: a character that is no digit, or a value that is
/// too large, whichever comes first, ends the reading.
pub open spec fn number(s: Seq<char>) -> Number
    decreases s.len(),
{
    if s.len() == 0 {
        Number::Value(0)
    } else {
        match number(s.drop_last()) {
            Number::Value(v) => if !('0' <= s.last() <= '9') {
                Number::Invalid
            } else {
                let w = 10 * v + (s.last() as u32 - 48);
                if w > usize::MAX {
                    Number::TooLarge
                } else {
                    Number::Value(w as nat)
                }
            },
            n => n,
        }
    }
}

/// The text between the white space at its ends.
pub open spec fn trimmed(s: Seq<char>) -> Seq<char> {
    trimmed_start(trimmed_end(s))
}

pub proof fn lemma_number_ends(s: Seq<char>, k: int)
    requires
        0 <= k <= s.len(),
        !(number(s.take(k)) is Value),
    ensures
        number(s) == number(s.take(k)),
    decreases s.len() - k,
{
    if k < s.len() {
        assert(s.take(k + 1).drop_last() =~= s.take(k));
        lemma_number_ends(s, k + 1);
    } else {
        assert(s.take(k) =~= s);
    }
}

fn invalid_index<T>(reason: &str) -> (r: Result<T, String>)
    ensures
        r matches Err(m) && m@ == "Invalid index: "@ + reason@,
{
    Err(joined("Invalid index: ", reason))
}

/// Reads an index, between white space that does not matter.
pub fn parse_usize(s: &str) -> (r: Result<usize, String>)
    ensures
        ({
            let t = trimmed(s@);
            if t.len() > 0 && number(digits_of(t)) is Value {
                r is Ok && Number::Value(r->Ok_0 as nat) == number(digits_of(t))
            } else {
                r matches Err(m) && m@ == "Invalid index: "@ + number_fault(t)
            }
        }),
{
    let n = s.unicode_len();
    let ghost t = trimmed(s@);
    let mut end: usize = n;
    proof {
        assert(s@.take(n as int) =~= s@);
    }
    while end > 0 && is_white_space(s.get_char(end - 1))
        invariant
            n == s@.len(),
            end <= n,
            trimmed_end(s@) == trimmed_end(s@.take(end as int)),
        decreases end,
    {
        assert(s@.take(end as int).drop_last() =~= s@.take(end - 1));
        end = end - 1;
    }
    let ghost head = s@.take(end as int);
    let mut start: usize = 0;
    proof {
        assert(trimmed_end(s@) == head);
        assert(head.skip(0) =~= head);
    }
    while start < end && is_white_space(s.get_char(start))
        invariant
            n == s@.len(),
            start <= end <= n,
            head == s@.take(end as int),
            trimmed_start(head) == trimmed_start(head.skip(start as int)),
        decreases end - start,
    {
        assert(head.skip(start as int).skip(1) =~= head.skip(start + 1));
        assert(head.skip(start as int)[0] == s@[start as int]);
        start = start + 1;
    }
    proof {
        if start < end {
            assert(head.skip(start as int)[0] == s@[start as int]);
        }
        assert(t == head.skip(start as int));
    }
    if start == end {
        return invalid_index("cannot parse integer from empty string");
    }
    let ghost d = digits_of(t);
    let first: usize = if end - start > 1 && s.get_char(start) == '+' {
        start + 1
    } else {
        start
    };
    let mut i: usize = first;
    let mut value: usize = 0;
    proof {
        assert(d =~= s@.subrange(first as int, end as int));
        assert(d.take(0) =~= Seq::<char>::empty());
    }
    while i < end
        invariant
            n == s@.len(),
            t.len() > 0,
            t == trimmed(s@),
            d == digits_of(t),
            first <= i <= end <= n,
            d == s@.subrange(first as int, end as int),
            number(d.take(i - first)) == Number::Value(value as nat),
        decreases end - i,
    {
        let c = s.get_char(i);
        proof {
            assert(d.take(i - first + 1).drop_last() =~= d.take(i - first));
            assert(d.take(i - first + 1).last() == c);
        }
        if !('0' <= c && c <= '9') {
            proof {
                lemma_number_ends(d, i - first + 1);
            }
            return invalid_index("invalid digit found in string");
        }
        let x = (c as u32 - 48) as usize;
        let next = match value.checked_mul(10) {
            Some(v) => v.checked_add(x),
            None => None,
        };
        match next {
            Some(v) => {
                value = v;
            },
            None => {
                proof {
                    lemma_number_ends(d, i - first + 1);
                }
                return invalid_index("number too large to fit in target type");
            },
        }
        i = i + 1;
    }
    assert(d.take(i - first) =~= d);
    Ok(value)
}

// ---------------------------------------------------------------------------------------
// Samples
// ---------------------------------------------------------------------------------------

/// Inputs, the outputs that are expected for them, and the outputs that a reference gave.
#[derive(Clone, Debug)]
pub struct Samples<T> {
    pub input_data: Vec<Vec<T>>,
    pub output_data: Vec<Vec<T>>,
    pub pytorch_output: Vec<Vec<T>>,
}

/// The rows of a table.
pub open spec fn rows<T>(s: Seq<Vec<T>>) -> Seq<Seq<T>> {
    Seq::new(s.len(), |i: int| s[i]@)
}

/// The rows with the given places, in the order given.
pub open spec fn picked<T>(s: Seq<Seq<T>>, indices: Seq<usize>) -> Seq<Seq<T>> {
    Seq::new(indices.len(), |i: int| s[indices[i] as int])
}

/// The first `n` rows, or all where there are fewer.
pub open spec fn first_rows<T>(s: Seq<T>, n: nat) -> Seq<T> {
    s.take(shorter(s.len(), n) as int)
}

fn pick<T: Copy>(s: &[Vec<T>], indices: &[usize]) -> (r: Vec<Vec<T>>)
    requires
        forall|i: int| 0 <= i < indices@.len() ==> #[trigger] indices@[i] < s@.len(),
    ensures
        rows(r@) == picked(rows(s@), indices@),
{
    let mut r: Vec<Vec<T>> = Vec::new();
    let mut i: usize = 0;
    while i < indices.len()
        invariant
            forall|i: int| 0 <= i < indices@.len() ==> #[trigger] indices@[i] < s@.len(),
            i <= indices@.len(),
            r.len() == i,
            forall|j: int| 0 <= j < i ==> (#[trigger] r@[j])@ == s@[indices@[j] as int]@,
        decreases indices@.len() - i,
    {
        assert(indices@[i as int] < s@.len());
        r.push(slice_to_vec(s[indices[i]].as_slice()));
        i = i + 1;
    }
    assert(rows(r@) =~= picked(rows(s@), indices@));
    r
}

fn copy_rows<T: Copy>(s: &[Vec<T>]) -> (r: Vec<Vec<T>>)
    ensures
        rows(r@) == rows(s@),
{
    let mut r: Vec<Vec<T>> = Vec::new();
    let mut i: usize = 0;
    while i < s.len()
        invariant
            i <= s@.len(),
            r.len() == i,
            forall|j: int| 0 <= j < i ==> (#[trigger] r@[j])@ == s@[j]@,
        decreases s@.len() - i,
    {
        r.push(slice_to_vec(s[i].as_slice()));
        i = i + 1;
    }
    assert(rows(r@) =~= rows(s@));
    r
}

fn cut<T>(s: &mut Vec<Vec<T>>, n: usize)
    ensures
        final(s)@ == first_rows(old(s)@, n as nat),
{
    while s.len() > n
        invariant
            n <= old(s)@.len() ==> n <= s@.len(),
            s@ == old(s)@.take(s@.len() as int),
            s@.len() <= old(s)@.len(),
            n > old(s)@.len() ==> s@.len() == old(s)@.len(),
        decreases s.len(),
    {
        let ghost before = s@;
        let _ = s.pop();
        assert(s@ =~= old(s)@.take(s@.len() as int));
    }
}

/// Why samples cannot be used.
#[derive(Clone, Copy, Debug, PartialEq, Eq)]
pub enum SampleError {
    /// There are none.
    Empty,
    /// An input is out of the range that is supported.
    NotReal,
}

impl<T: Copy> Samples<T> {
    /// There is an output of either kind for every input.
    pub open spec fn even(self) -> bool {
        self.input_data@.len() == self.output_data@.len() && self.input_data@.len()
            == self.pytorch_output@.len()
    }

    /// Whether there is an output of either kind for every input.
    pub fn is_even(&self) -> (r: bool)
        ensures
            r == self.even(),
    {
        self.input_data.len() == self.output_data.len() && self.input_data.len()
            == self.pytorch_output.len()
    }

    /// All indices are places of samples.
    pub open spec fn in_range(self, indices: Seq<usize>) -> bool {
        forall|i: int| 0 <= i < indices.len() ==> #[trigger] indices[i] < self.input_data@.len()
    }

    /// Whether all indices are places of samples.
    pub fn has_all(&self, indices: &[usize]) -> (r: bool)
        ensures
            r == self.in_range(indices@),
    {
        let mut i: usize = 0;
        while i < indices.len()
            invariant
                i <= indices@.len(),
                forall|j: int| 0 <= j < i ==> #[trigger] indices@[j] < self.input_data@.len(),
            decreases indices@.len() - i,
        {
            if indices[i] >= self.input_data.len() {
                assert(!(indices@[i as int] < self.input_data@.len()));
                return false;
            }
            i = i + 1;
        }
        true
    }

    /// The samples with the given places, or all samples.
    pub fn filter(&self, indices: Option<&Vec<usize>>) -> (r: Self)
        requires
            indices matches Some(i) ==> self.even() && self.in_range(i@),
        ensures
            match indices {
                Some(i) => {
                    &&& rows(r.input_data@) == picked(rows(self.input_data@), i@)
                    &&& rows(r.output_data@) == picked(rows(self.output_data@), i@)
                    &&& rows(r.pytorch_output@) == picked(rows(self.pytorch_output@), i@)
                },
                None => {
                    &&& rows(r.input_data@) == rows(self.input_data@)
                    &&& rows(r.output_data@) == rows(self.output_data@)
                    &&& rows(r.pytorch_output@) == rows(self.pytorch_output@)
                },
            },
    {
        match indices {
            Some(i) => Samples {
                input_data: pick(self.input_data.as_slice(), i.as_slice()),
                output_data: pick(self.output_data.as_slice(), i.as_slice()),
                pytorch_output: pick(self.pytorch_output.as_slice(), i.as_slice()),
            },
            None => Samples {
                input_data: copy_rows(self.input_data.as_slice()),
                output_data: copy_rows(self.output_data.as_slice()),
                pytorch_output: copy_rows(self.pytorch_output.as_slice()),
            },
        }
    }

    /// Keeps the first samples only.
    pub fn truncate(&mut self, num_samples: usize)
        ensures
            final(self).input_data@ == first_rows(old(self).input_data@, num_samples as nat),
            final(self).output_data@ == first_rows(old(self).output_data@, num_samples as nat),
            final(self).pytorch_output@ == first_rows(
                old(self).pytorch_output@,
                num_samples as nat,
            ),
    {
        cut(&mut self.input_data, num_samples);
        cut(&mut self.output_data, num_samples);
        cut(&mut self.pytorch_output, num_samples);
    }

    /// Checks samples; `input_isreal` tells whether all inputs are in the range that is supported.
    pub fn validate(&self, input_isreal: bool) -> (r: Result<(), SampleError>)
        requires
            self.input_data@.len() > 0 ==> self.even(),
        ensures
            r == if self.input_data@.len() == 0 {
                Err::<(), SampleError>(SampleError::Empty)
            } else if !input_isreal {
                Err::<(), SampleError>(SampleError::NotReal)
            } else {
                Ok::<(), SampleError>(())
            },
    {
        if self.input_data.len() == 0 {
            return Err(SampleError::Empty);
        }
        if !input_isreal {
            return Err(SampleError::NotReal);
        }
        Ok(())
    }
}

/// Truncating and then picking samples that are left is picking them.
pub proof fn law_truncate_filter<T>(s: Seq<Seq<T>>, n: nat, indices: Seq<usize>)
    requires
        n <= s.len(),
        forall|i: int| 0 <= i < indices.len() ==> #[trigger] indices[i] < n,
    ensures
        picked(first_rows(s, n), indices) == picked(s, indices),
{
    assert(picked(first_rows(s, n), indices) =~= picked(s, indices)) by {
        assert forall|i: int| 0 <= i < indices.len() implies first_rows(s, n)[indices[i] as int]
            == s[indices[i] as int] by {
            assert(indices[i] < n);
        }
    }
}

// ---------------------------------------------------------------------------------------
// Rows of measurements
// ---------------------------------------------------------------------------------------

/// The bytes that the `csv` crate writes for a record with the given fields.
pub uninterp spec fn csv_record(fields: Seq<Seq<char>>) -> Seq<u8>;

/// A record written by `csv::Writer::write_record`, on a writer made by `csv::WriterBuilder` that
/// appends to a vector, and handed out by `csv::Writer::into_inner`. The bytes are a function of
/// the fields; nothing more is claimed of them. Appending to a vector does not fail, and a first
/// record may have any number of fields.
#[verifier::external_body]
fn write_csv_record(fields: &[String]) -> (r: Vec<u8>)
    ensures
        r@ == csv_record(texts(fields@)),
{
    let mut writer = csv::WriterBuilder::new().from_writer(Vec::new());
    writer.write_record(fields).expect("a first record has any number of fields");
    writer.into_inner().expect("appending to a vector does not fail")
}

/// The texts of a sequence of strings.
pub open spec fn texts(s: Seq<String>) -> Seq<Seq<char>> {
    Seq::new(s.len(), |i: int| s[i]@)
}

/// One row of measurements, by the names of the columns.
#[derive(Clone, Debug)]
pub struct CSVBencher {
    data: Vec<(String, String)>,
    headers: Vec<String>,
}

/// The measurements, by the names of the columns.
pub open spec fn entries_map(data: Seq<(String, String)>) -> Map<Seq<char>, Seq<char>>
    decreases data.len(),
{
    if data.len() == 0 {
        Map::empty()
    } else {
        entries_map(data.drop_last()).insert(data.last().0@, data.last().1@)
    }
}

proof fn lemma_entries(data: Seq<(String, String)>)
    ensures
        forall|k: Seq<char>| #[trigger]
            entries_map(data).contains_key(k) <==> has_key(data, k),
    decreases data.len(),
{
    if data.len() > 0 {
        lemma_entries(data.drop_last());
        assert forall|k: Seq<char>| #[trigger]
            entries_map(data).contains_key(k) <==> has_key(data, k) by {
            assert(entries_map(data.drop_last()).contains_key(k) <==> has_key(
                data.drop_last(),
                k,
            ));
            if has_key(data.drop_last(), k) {
                let i = choose|i: int|
                    0 <= i < data.drop_last().len() && (#[trigger] data.drop_last()[i]).0@ == k;
                assert(data[i].0@ == k);
            }
            if data.last().0@ == k {
                assert(data[data.len() - 1].0@ == k);
            }
            if has_key(data, k) && data.last().0@ != k {
                let i = choose|i: int| 0 <= i < data.len() && (#[trigger] data[i]).0@ == k;
                assert(data.drop_last()[i].0@ == k);
            }
        }
    }
}

/// There is an entry under the key.
spec fn has_key(data: Seq<(String, String)>, k: Seq<char>) -> bool {
    exists|i: int| 0 <= i < data.len() && (#[trigger] data[i]).0@ == k
}

/// Where an entry is the last under its key, the map holds it.
proof fn lemma_entry(data: Seq<(String, String)>, i: int)
    requires
        0 <= i < data.len(),
        forall|j: int| i < j < data.len() ==> (#[trigger] data[j]).0@ != data[i].0@,
    ensures
        entries_map(data).contains_key(data[i].0@),
        entries_map(data)[data[i].0@] == data[i].1@,
    decreases data.len(),
{
    if i < data.len() - 1 {
        assert(data[data.len() - 1].0@ != data[i].0@);
        assert forall|j: int| i < j < data.drop_last().len() implies (
        #[trigger] data.drop_last()[j]).0@ != data.drop_last()[i].0@ by {
            assert(data[j].0@ != data[i].0@);
        }
        lemma_entry(data.drop_last(), i);
    }
}

impl CSVBencher {
    /// The measurements, by the names of the columns.
    pub closed spec fn entries(self) -> Map<Seq<char>, Seq<char>> {
        entries_map(self.data@)
    }

    /// The names of the columns.
    pub closed spec fn columns(self) -> Seq<Seq<char>> {
        texts(self.headers@)
    }

    /// A row without measurements.
    pub fn from_headers(headers: Vec<String>) -> (r: Self)
        ensures
            r.columns() == texts(headers@),
            r.entries() == Map::<Seq<char>, Seq<char>>::empty(),
    {
        CSVBencher { data: Vec::new(), headers }
    }

    /// What speaks against a measurement in the column, if anything does.
    pub open spec fn column_fault(self, column: Seq<char>) -> Option<Seq<char>> {
        if self.entries().contains_key(column) {
            Some(
                "CSVBencher only flushes one row at a time for now (key already registered: "@
                    + column + ")"@,
            )
        } else if !self.columns().contains(column) {
            Some("column "@ + column + " non existing"@)
        } else {
            None
        }
    }

    fn find(&self, column: &str) -> (r: Option<usize>)
        ensures
            r is Some <==> self.entries().contains_key(column@),
            r matches Some(i) ==> i < self.data@.len() && self.data@[i as int].1@
                == self.entries()[column@],
    {
        proof {
            lemma_entries(self.data@);
        }
        let mut i: usize = self.data.len();
        while i > 0
            invariant
                i <= self.data@.len(),
                forall|j: int| i <= j < self.data@.len() ==> (#[trigger] self.data@[j]).0@
                    != column@,
            decreases i,
        {
            i = i - 1;
            if same_text(self.data[i].0.as_str(), column) {
                proof {
                    assert(self.data@[i as int].0@ == column@);
                    lemma_entry(self.data@, i as int);
                }
                return Some(i);
            }
        }
        None
    }

    fn has_column(&self, column: &str) -> (r: bool)
        ensures
            r == self.columns().contains(column@),
    {
        let mut i: usize = 0;
        while i < self.headers.len()
            invariant
                i <= self.headers@.len(),
                forall|j: int| 0 <= j < i ==> (#[trigger] self.columns()[j]) != column@,
            decreases self.headers@.len() - i,
        {
            assert(self.columns()[i as int] == self.headers@[i as int]@);
            if same_text(self.headers[i].as_str(), column) {
                assert(self.columns().contains(column@));
                return true;
            }
            i = i + 1;
        }
        false
    }

    /// Checks that the column exists and has no measurement yet. Fails where not.
    pub fn check(&self, column: &str) -> (r: Result<(), String>)
        ensures
            match self.column_fault(column@) {
                Some(m) => r matches Err(e) && e@ == m,
                None => r is Ok,
            },
    {
        if self.find(column).is_some() {
            let mut s = String::from_str(
                "CSVBencher only flushes one row at a time for now (key already registered: ",
            );
            s.append(column);
            s.append(")");
            return Err(s);
        }
        if !self.has_column(column) {
            let mut s = String::from_str("column ");
            s.append(column);
            s.append(" non existing");
            return Err(s);
        }
        Ok(())
    }

    /// Puts a measurement into a column that exists and has none yet.
    pub fn set(&mut self, column: &str, data: String)
        requires
            old(self).column_fault(column@) is None,
        ensures
            final(self).columns() == old(self).columns(),
            final(self).entries() == old(self).entries().insert(column@, data@),
    {
        self.data.push((String::from_str(column), data));
        assert(self.data@.drop_last() =~= old(self).data@);
    }

    /// All columns have measurements.
    pub open spec fn full(self) -> bool {
        forall|i: int|
            0 <= i < self.columns().len() ==> self.entries().contains_key(
                #[trigger] self.columns()[i],
            )
    }

    /// The measurements in the order of the columns; none where a column has no measurement.
    pub fn row(&self) -> (r: Option<Vec<String>>)
        ensures
            r is Some <==> self.full(),
            r matches Some(v) ==> texts(v@) == Seq::new(
                self.columns().len(),
                |i: int| self.entries()[self.columns()[i]],
            ),
    {
        let mut v: Vec<String> = Vec::new();
        let mut i: usize = 0;
        while i < self.headers.len()
            invariant
                i <= self.headers@.len(),
                v.len() == i,
                forall|j: int|
                    0 <= j < i ==> self.entries().contains_key(#[trigger] self.columns()[j]),
                forall|j: int|
                    0 <= j < i ==> (#[trigger] v@[j])@ == self.entries()[self.columns()[j]],
            decreases self.headers@.len() - i,
        {
            assert(self.columns()[i as int] == self.headers@[i as int]@);
            match self.find(self.headers[i].as_str()) {
                Some(k) => {
                    v.push(String::from_str(self.data[k].1.as_str()));
                },
                None => {
                    assert(!self.entries().contains_key(self.columns()[i as int]));
                    return None;
                },
            }
            i = i + 1;
        }
        assert(texts(v@) =~= Seq::new(
            self.columns().len(),
            |i: int| self.entries()[self.columns()[i]],
        ));
        Some(v)
    }

    /// What is to be appended to the file: the measurements, behind the names of the columns where
    /// the file does not exist yet. None where a column has no measurement.
    pub fn to_bytes(&self, file_exists: bool) -> (r: Option<Vec<u8>>)
        ensures
            r is Some <==> self.full(),
            r matches Some(b) ==> {
                let row = csv_record(
                    Seq::new(self.columns().len(), |i: int| self.entries()[self.columns()[i]]),
                );
                b@ == if file_exists {
                    row
                } else {
                    csv_record(self.columns()) + row
                }
            },
    {
        let values = match self.row() {
            Some(v) => v,
            None => {
                return None;
            },
        };
        let row = write_csv_record(values.as_slice());
        if file_exists {
            return Some(row);
        }
        let mut bytes = write_csv_record(self.headers.as_slice());
        let mut i: usize = 0;
        let ghost head = bytes@;
        while i < row.len()
            invariant
                i <= row@.len(),
                bytes@ == head + row@.take(i as int),
            decreases row@.len() - i,
        {
            bytes.push(row[i]);
            i = i + 1;
            assert(bytes@ =~= head + row@.take(i as int));
        }
        assert(row@.take(i as int) =~= row@);
        Some(bytes)
    }
}

/// A column that was set has its measurement, and cannot be set again.
pub proof fn law_set(before: CSVBencher, after: CSVBencher, column: Seq<char>, data: Seq<char>)
    requires
        before.column_fault(column) is None,
        after.columns() == before.columns(),
        after.entries() == before.entries().insert(column, data),
    ensures
        after.entries()[column] == data,
        after.column_fault(column) is Some,
        forall|c: Seq<char>|
            c != column ==> #[trigger] after.column_fault(c) == before.column_fault(c),
{
}

// ---------------------------------------------------------------------------------------
// Ways to quantise
// ---------------------------------------------------------------------------------------

/// How the scaling factors of a model are found.
#[derive(Clone, Copy, Debug, PartialEq, Eq)]
pub enum Strategy {
    /// From inferences on representative inputs.
    Inference,
    /// From the greatest absolute values.
    MaxAbs,
}

/// The strategy with the given name.
pub fn parse_strategy(name: &str) -> (r: Option<Strategy>)
    ensures
        r == if name@ == "inference"@ {
            Some(Strategy::Inference)
        } else if name@ == "maxabs"@ {
            Some(Strategy::MaxAbs)
        } else {
            None
        },
{
    if same_text(name, "inference") {
        Some(Strategy::Inference)
    } else if same_text(name, "maxabs") {
        Some(Strategy::MaxAbs)
    } else {
        None
    }
}

} // verus!
