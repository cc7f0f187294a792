//! Assembling a speller from word sources.
use vstd::prelude::*;
use crate::automaton::{new_factory, MAX_AUTOMATON_DISTANCE};
use crate::distance::chars_of;
use crate::error::BuildError;
use crate::frequency::{entries_view, ingested, WordFrequency};
use crate::speller::Speller;

verus! {

/// The plain view of several word/count sources.
pub open spec fn sources_view(v: Seq<Vec<(String, i32)>>) -> Seq<Seq<(Seq<char>, i32)>> {
    v.map_values(|e: Vec<(String, i32)>| entries_view(e@))
}

/// The counts after ingesting every source, in order.
pub open spec fn ingested_all(
    m: Map<Seq<char>, i64>,
    sources: Seq<Seq<(Seq<char>, i32)>>,
    case_sensitive: bool,
) -> Map<Seq<char>, i64>
    decreases sources.len(),
{
    if sources.len() == 0 {
        m
    } else {
        ingested(
            ingested_all(m, sources.drop_last(), case_sensitive),
            sources.last(),
            case_sensitive,
        )
    }
}

/// The supported formats of a dictionary file, chosen by its extension.
#[derive(Debug, Clone, Copy, PartialEq, Eq)]
pub enum SourceFormat {
    /// `.json`: an object from words to counts.
    Json,
    /// `.csv`: comma-separated word and count columns.
    Csv,
    /// `.tsv`: tab-separated word and count columns.
    Tsv,
    /// `.txt`: space-separated word and count fields, one entry per line.
    Txt,
}

/// What `Path::extension` yields for a path, as text.
pub uninterp spec fn extension_of(path: Seq<char>) -> Option<Seq<char>>;

/// Relies on `Path::extension`: the part of the file name after its last dot
/// (none for names without one or starting with it), when it is valid text.
#[verifier::external_body]
fn path_extension(path: &str) -> (r: Option<String>)
    ensures
        match r {
            Some(e) => extension_of(path@) == Some(e@),
            None => extension_of(path@) is None,
        },
{
    std::path::Path::new(path).extension().and_then(|e| e.to_str()).map(|e| e.to_owned())
}

/// The format that a file extension selects.
pub open spec fn format_of(ext: Seq<char>) -> Option<SourceFormat> {
    if ext == seq!['j', 's', 'o', 'n'] {
        Some(SourceFormat::Json)
    } else if ext == seq!['c', 's', 'v'] {
        Some(SourceFormat::Csv)
    } else if ext == seq!['t', 's', 'v'] {
        Some(SourceFormat::Tsv)
    } else if ext == seq!['t', 'x', 't'] {
        Some(SourceFormat::Txt)
    } else {
        None
    }
}

fn spells(v: &Vec<char>, a: char, b: char, c: char) -> (r: bool)
    ensures
        r == (v@ == seq![a, b, c]),
{
    let r = v.len() == 3 && v[0] == a && v[1] == b && v[2] == c;
    proof {
        if r {
            assert(v@ =~= seq![a, b, c]);
        }
    }
    r
}

/// The format of the file at `path`, from its extension.
pub fn source_format(path: &str) -> (r: Result<SourceFormat, BuildError>)
    ensures
        match r {
            Ok(f) => exists|e: Seq<char>| extension_of(path@) == Some(e) && format_of(e) == Some(f),
            Err(err) => err == BuildError::FileTypeNotSupported && match extension_of(path@) {
                Some(e) => format_of(e) is None,
                None => true,
            },
        },
{
    let ext = match path_extension(path) {
        Some(e) => e,
        None => return Err(BuildError::FileTypeNotSupported),
    };
    let ghost ev = ext@;
    let v = chars_of(ext.as_str());
    if v.len() == 4 && v[0] == 'j' && v[1] == 's' && v[2] == 'o' && v[3] == 'n' {
        proof {
            assert(v@ =~= seq!['j', 's', 'o', 'n']);
        }
        Ok(SourceFormat::Json)
    } else if spells(&v, 'c', 's', 'v') {
        Ok(SourceFormat::Csv)
    } else if spells(&v, 't', 's', 'v') {
        Ok(SourceFormat::Tsv)
    } else if spells(&v, 't', 'x', 't') {
        Ok(SourceFormat::Txt)
    } else {
        proof {
            if v@ == seq!['j', 's', 'o', 'n'] {
                assert(v@[3] == 'n');
            }
        }
        Err(BuildError::FileTypeNotSupported)
    }
}

/// The configuration of a speller: its bound, case handling and word sources.
pub struct SpellerBuilder {
    pub dict_file: Vec<String>,
    pub distance: i32,
    pub case_sensitive: bool,
    pub dict_source: Vec<Vec<(String, i32)>>,
}

impl Speller {
    /// A builder with the default configuration.
    pub fn builder() -> (r: SpellerBuilder)
        ensures
            r.dict_file@.len() == 0,
            r.distance == 2,
            !r.case_sensitive,
            r.dict_source@.len() == 0,
    {
        SpellerBuilder::new()
    }
}

impl SpellerBuilder {
    /// No sources, distance 2, case-insensitive.
    pub fn new() -> (r: SpellerBuilder)
        ensures
            r.dict_file@.len() == 0,
            r.distance == 2,
            !r.case_sensitive,
            r.dict_source@.len() == 0,
    {
        SpellerBuilder { dict_file: Vec::new(), distance: 2, case_sensitive: false, dict_source: Vec::new() }
    }

    /// Sets the dictionary files.
    pub fn dict_file(&mut self, local_file: Vec<String>) -> (r: &mut Self)
        ensures
            (*r).dict_file == local_file,
            (*r).distance == old(self).distance,
            (*r).case_sensitive == old(self).case_sensitive,
            (*r).dict_source == old(self).dict_source,
            *final(self) == *final(r),
    {
        self.dict_file = local_file;
        self
    }

    /// Sets the largest distance a correction may have.
    pub fn distance(&mut self, distance: i32) -> (r: &mut Self)
        ensures
            (*r).dict_file == old(self).dict_file,
            (*r).distance == distance,
            (*r).case_sensitive == old(self).case_sensitive,
            (*r).dict_source == old(self).dict_source,
            *final(self) == *final(r),
    {
        self.distance = distance;
        self
    }

    /// Sets whether words keep their case.
    pub fn case_sensitive(&mut self, case_sensitive: bool) -> (r: &mut Self)
        ensures
            (*r).dict_file == old(self).dict_file,
            (*r).distance == old(self).distance,
            (*r).case_sensitive == case_sensitive,
            (*r).dict_source == old(self).dict_source,
            *final(self) == *final(r),
    {
        self.case_sensitive = case_sensitive;
        self
    }

    /// Sets the in-memory word/count sources.
    pub fn dict_source(&mut self, dict_source: Vec<Vec<(String, i32)>>) -> (r: &mut Self)
        ensures
            (*r).dict_file == old(self).dict_file,
            (*r).distance == old(self).distance,
            (*r).case_sensitive == old(self).case_sensitive,
            (*r).dict_source == dict_source,
            *final(self) == *final(r),
    {
        self.dict_source = dict_source;
        self
    }

    /// Builds the speller from the word lists read from its files
    /// (`file_words[i]` from `dict_file[i]`) and then its in-memory sources.
    pub fn build_loaded(&self, file_words: Vec<Vec<(String, i32)>>) -> (r: Result<
        Speller,
        BuildError,
    >)
        requires
            file_words.len() == self.dict_file.len(),
            0 <= self.distance <= MAX_AUTOMATON_DISTANCE,
        ensures
            ({
                let m = ingested_all(
                    ingested_all(Map::empty(), sources_view(file_words@), self.case_sensitive),
                    sources_view(self.dict_source@),
                    self.case_sensitive,
                );
                if self.dict_file.len() == 0 && self.dict_source.len() == 0 {
                    r == Err::<Speller, BuildError>(BuildError::EmptySourceConfiguration)
                } else if m.dom().len() == 0 {
                    r == Err::<Speller, BuildError>(BuildError::DictNotFound)
                } else {
                    &&& r is Ok
                    &&& r->Ok_0.wf()
                    &&& r->Ok_0.vocabulary().counts() == m
                    &&& r->Ok_0.max_distance() == self.distance
                    &&& r->Ok_0.is_case_sensitive() == self.case_sensitive
                }
            }),
    {
        if self.dict_file.len() == 0 && self.dict_source.len() == 0 {
            return Err(BuildError::EmptySourceConfiguration);
        }
        let mut frequency = WordFrequency::new(self.case_sensitive);
        let mut i: usize = 0;
        while i < file_words.len()
            invariant
                i <= file_words.len(),
                frequency.wf(),
                frequency.is_case_sensitive() == self.case_sensitive,
                frequency.counts() == ingested_all(
                    Map::empty(),
                    sources_view(file_words@).subrange(0, i as int),
                    self.case_sensitive,
                ),
            decreases file_words.len() - i,
        {
            let _ = frequency.load_dict(&file_words[i]);
            proof {
                let sv = sources_view(file_words@);
                assert(sv.subrange(0, i + 1).drop_last() =~= sv.subrange(0, i as int));
            }
            i += 1;
        }
        proof {
            assert(sources_view(file_words@).subrange(0, file_words.len() as int) =~= sources_view(
                file_words@,
            ));
        }
        let ghost after_files = frequency.counts();
        let mut j: usize = 0;
        while j < self.dict_source.len()
            invariant
                j <= self.dict_source.len(),
                frequency.wf(),
                frequency.is_case_sensitive() == self.case_sensitive,
                frequency.counts() == ingested_all(
                    after_files,
                    sources_view(self.dict_source@).subrange(0, j as int),
                    self.case_sensitive,
                ),
            decreases self.dict_source.len() - j,
        {
            let _ = frequency.load_dict(&self.dict_source[j]);
            proof {
                let sv = sources_view(self.dict_source@);
                assert(sv.subrange(0, j + 1).drop_last() =~= sv.subrange(0, j as int));
            }
            j += 1;
        }
        proof {
            assert(sources_view(self.dict_source@).subrange(0, self.dict_source.len() as int)
                =~= sources_view(self.dict_source@));
        }
        if frequency.unique_words() == 0 {
            return Err(BuildError::DictNotFound);
        }
        let distance = self.distance as u8;
        let factory = new_factory(distance);
        Ok(Speller::new(distance, factory, frequency))
    }
}

} // verus!
