//! The command surface: the two subcommands and their path handling. Paths
//! are plain strings here; the thin binary shell turns them into filesystem
//! paths. When no output path is given, the receipt subcommand derives one
//! from the input path's file stem, and the schema subcommand falls back to a
//! fixed name in the current working directory.

use vstd::prelude::*;

verus! {

/// Index of the last occurrence of `c` in `s`, or -1 if it does not occur.
pub open spec fn last_index_of(s: Seq<char>, c: char) -> int
    decreases s.len(),
{
    if s.len() == 0 {
        -1
    } else if s.last() == c {
        s.len() - 1
    } else {
        last_index_of(s.drop_last(), c)
    }
}

/// Where the file name begins: just after the last path separator, or the
/// start of the path when there is none.
pub open spec fn file_name_start(path: Seq<char>) -> int {
    last_index_of(path, '/') + 1
}

/// Where the file stem ends: at the last '.' of the file name, unless that
/// dot begins the file name (a hidden file keeps its whole name) or the file
/// name has no dot, in which case the stem runs to the end of the path.
pub open spec fn stem_end(path: Seq<char>) -> int {
    if last_index_of(path, '.') > file_name_start(path) {
        last_index_of(path, '.')
    } else {
        path.len() as int
    }
}

/// The derived output path: the input path up to the end of its file stem,
/// with `_output.json` appended, e.g. `my_receipt.json` becomes
/// `my_receipt_output.json`.
pub open spec fn derived_output_path(path: Seq<char>) -> Seq<char> {
    path.subrange(0, stem_end(path)) + "_output.json"@
}

proof fn lemma_last_index_of_bounds(s: Seq<char>, c: char)
    ensures
        -1 <= last_index_of(s, c) < s.len(),
    decreases s.len(),
{
    if s.len() > 0 && s.last() != c {
        lemma_last_index_of_bounds(s.drop_last(), c);
    }
}

proof fn lemma_last_index_of_suffix_free(s: Seq<char>, c: char, i: int)
    requires
        0 <= i <= s.len(),
        forall|k: int| i <= k < s.len() ==> s[k] != c,
    ensures
        last_index_of(s.take(i), c) == last_index_of(s, c),
    decreases s.len() - i,
{
    if i == s.len() {
        assert(s.take(i) =~= s);
    } else {
        lemma_last_index_of_suffix_free(s, c, i + 1);
        assert(s.take(i + 1).drop_last() =~= s.take(i));
        assert(s.take(i + 1).last() == s[i]);
    }
}

proof fn lemma_last_index_of_found(s: Seq<char>, c: char, i: int)
    requires
        0 <= i < s.len(),
        s[i] == c,
        forall|k: int| i < k < s.len() ==> s[k] != c,
    ensures
        last_index_of(s, c) == i,
    decreases s.len() - i,
{
    lemma_last_index_of_suffix_free(s, c, i + 1);
    assert(s.take(i + 1).last() == s[i]);
}

/// Index of the last occurrence of `c` in `s`, scanning from the end.
fn rfind_char(s: &str, c: char) -> (r: Option<usize>)
    ensures
        match r {
            Some(i) => i == last_index_of(s@, c),
            None => last_index_of(s@, c) == -1,
        },
{
    let len = s.unicode_len();
    let mut i: usize = len;
    while i > 0
        invariant
            i <= len,
            len == s@.len(),
            forall|k: int| i <= k < s@.len() ==> s@[k] != c,
        decreases i,
    {
        let ch = s.get_char(i - 1);
        if ch == c {
            proof {
                lemma_last_index_of_found(s@, c, i - 1);
            }
            return Some(i - 1);
        }
        i = i - 1;
    }
    proof {
        lemma_last_index_of_suffix_free(s@, c, 0);
        assert(s@.take(0) =~= Seq::<char>::empty());
    }
    None
}

/// Arguments of the receipt-computing subcommand.
pub struct ReceiptArgs {
    pub input_path: String,
    pub output_path: Option<String>,
}

impl ReceiptArgs {
    pub fn new(input_path: String, output_path: Option<String>) -> (r: ReceiptArgs)
        ensures
            r.input_path == input_path,
            r.output_path == output_path,
    {
        ReceiptArgs { input_path, output_path }
    }

    pub fn get_input_path(&self) -> (r: String)
        ensures
            r == self.input_path,
    {
        self.input_path.clone()
    }

    /// The explicit output path if one was given; otherwise the input path
    /// with `_output` spliced in before its `.json` extension.
    pub fn get_output_path(&self) -> (r: String)
        ensures
            match self.output_path {
                Some(p) => r == p,
                None => r@ == derived_output_path(self.input_path@),
            },
    {
        match &self.output_path {
            Some(p) => p.clone(),
            None => {
                proof {
                    lemma_last_index_of_bounds(self.input_path@, '/');
                    lemma_last_index_of_bounds(self.input_path@, '.');
                }
                let s = self.input_path.as_str();
                let len = s.unicode_len();
                let name_start: usize = match rfind_char(s, '/') {
                    Some(i) => i + 1,
                    None => 0,
                };
                let end: usize = match rfind_char(s, '.') {
                    Some(d) => if d > name_start {
                        d
                    } else {
                        len
                    },
                    None => len,
                };
                let mut out = s.substring_char(0, end).to_owned();
                out.append("_output.json");
                proof {
                    assert(out@ =~= derived_output_path(self.input_path@));
                }
                out
            },
        }
    }
}

/// Arguments of the schema-printing subcommand.
pub struct SchemaArgs {
    pub output_path: Option<String>,
}

impl SchemaArgs {
    pub fn new(output_path: Option<String>) -> (r: SchemaArgs)
        ensures
            r.output_path == output_path,
    {
        SchemaArgs { output_path }
    }

    /// The explicit output path if one was given; otherwise a fixed file name
    /// resolved against the current working directory.
    pub fn get_output_path(&self) -> (r: String)
        ensures
            match self.output_path {
                Some(p) => r == p,
                None => r@ == "receipt_schema.json"@,
            },
    {
        match &self.output_path {
            Some(p) => p.clone(),
            None => "receipt_schema.json".to_owned(),
        }
    }
}

/// The two subcommands: compute a receipt's breakdown, or emit the input
/// schema.
pub enum Args {
    Compute(ReceiptArgs),
    Schema(SchemaArgs),
}

} // verus!
