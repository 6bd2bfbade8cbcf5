//! Capture metadata of a file, and the name that it gives the file.

use vstd::prelude::*;
use crate::error::MetadataError;
use crate::fs::{absolute, carries_extension, extension, extension_text, final_dot, join, joined};
use crate::fs::{file_name, last_index_of, lemma_last_index_is, lemma_last_index_of, numbered};
use crate::text::{extend_range, extend_str, from_chars, is_digit, lemma_zero_padded, to_chars};
use crate::text::{decimal, texts, zero_padded};
use crate::timestamp::{parse_datetime, parsed_datetime, DateTimeFields, Timestamp};

verus! {

/// The format in which the metadata tool is asked to print the capture date.
pub const INPUT_DATE_FMT: &'static str = "%Y-%m-%d %H:%M:%S";

/// Whether `c` is white space, as Unicode defines it.
pub open spec fn is_whitespace(c: char) -> bool {
    let code = c as int;
    ||| 0x09 <= code <= 0x0d
    ||| code == 0x20
    ||| code == 0x85
    ||| code == 0xa0
    ||| code == 0x1680
    ||| 0x2000 <= code <= 0x200a
    ||| code == 0x2028
    ||| code == 0x2029
    ||| code == 0x202f
    ||| code == 0x205f
    ||| code == 0x3000
}

/// Whether a word of `text` begins at index `i`: a character that is no
/// white space, at the start of the text or behind white space.
pub open spec fn starts_word(text: Seq<char>, i: int) -> bool {
    &&& 0 <= i < text.len()
    &&& !is_whitespace(text[i])
    &&& i == 0 || is_whitespace(text[i - 1])
}

/// The first characters of the words that begin among the first `n`
/// characters of `text`, in order.
pub open spec fn initials_upto(text: Seq<char>, n: int) -> Seq<char>
    decreases n,
{
    if n <= 0 {
        Seq::empty()
    } else if starts_word(text, n - 1) {
        initials_upto(text, n - 1).push(text[n - 1])
    } else {
        initials_upto(text, n - 1)
    }
}

/// The initials of an artist: the first character of each word of the name.
pub open spec fn initials_of(artist: Seq<char>) -> Seq<char> {
    initials_upto(artist, artist.len() as int)
}

/// The first index from `start` on at which `c` stands in `s`, or the length
/// of `s` where there is none.
pub open spec fn index_from(s: Seq<char>, c: char, start: int) -> int
    decreases s.len() - start,
{
    if start < 0 || start >= s.len() {
        s.len() as int
    } else if s[start] == c {
        start
    } else {
        index_from(s, c, start + 1)
    }
}

/// Where the first field of the output of the metadata tool ends.
pub open spec fn date_end(output: Seq<char>) -> int {
    index_from(output, '\t', 0)
}

/// The first of the tab-separated fields of the output: the capture date.
pub open spec fn date_field(output: Seq<char>) -> Seq<char> {
    output.subrange(0, date_end(output))
}

/// Whether the output has a second field. A tab at the very end begins no
/// field.
pub open spec fn has_artist_field(output: Seq<char>) -> bool {
    date_end(output) + 1 < output.len()
}

/// The second of the tab-separated fields of the output: the artist.
pub open spec fn artist_field(output: Seq<char>) -> Seq<char> {
    output.subrange(date_end(output) + 1, index_from(output, '\t', date_end(output) + 1))
}

/// The metadata of a file as plain values.
pub struct MetadataView {
    pub artist: Seq<char>,
    pub date: DateTimeFields,
    pub extension: Seq<char>,
}

impl MetadataView {
    /// The file name that the metadata give: the initials of the artist, a
    /// dash, the capture time to the second, a dot and the extension.
    pub open spec fn file_name(self) -> Seq<char> {
        initials_of(self.artist) + seq!['-'] + self.date.iso_seconds() + seq!['.']
            + self.extension
    }

    /// The candidate destination under the directory `destination`.
    pub open spec fn candidate(self, destination: Seq<char>) -> Seq<char> {
        joined(destination, self.file_name())
    }

    /// Whether two sets of metadata agree to the second: in the artist, the
    /// extension and every part of the capture time as it is written.
    pub open spec fn same_to_the_second(self, other: MetadataView) -> bool {
        &&& self.artist == other.artist
        &&& self.extension == other.extension
        &&& self.date.year == other.date.year
        &&& self.date.month == other.date.month
        &&& self.date.day == other.date.day
        &&& self.date.hour == other.date.hour
        &&& self.date.minute == other.date.minute
        &&& self.date.written_second() == other.date.written_second()
    }
}

/// What the output of the metadata tool for the file at `path` resolves to.
/// The date is read by `chrono` in the format `INPUT_DATE_FMT`.
pub open spec fn resolved(output: Seq<char>, path: Seq<char>) -> Result<
    MetadataView,
    MetadataError,
> {
    if output.len() == 0 {
        Err(MetadataError::MissingDate)
    } else if !has_artist_field(output) {
        Err(MetadataError::MissingArtist)
    } else {
        assembled(
            parsed_datetime(date_field(output), INPUT_DATE_FMT@),
            artist_field(output),
            path,
        )
    }
}

/// The fields that a reading came to, if it came to any.
pub open spec fn fields_read(date: Result<DateTimeFields, chrono::format::ParseError>) -> Option<
    DateTimeFields,
> {
    match date {
        Ok(fields) => Some(fields),
        Err(_) => None,
    }
}

/// The metadata made of a date as it was read, an artist and the extension
/// of `path`. They are made where the date was read and its fields are
/// valid.
pub open spec fn assembled(
    date: Option<DateTimeFields>,
    artist: Seq<char>,
    path: Seq<char>,
) -> Result<MetadataView, MetadataError> {
    match date {
        Some(fields) if fields.is_valid() => Ok(
            MetadataView { artist, date: fields, extension: extension_text(path) },
        ),
        _ => Err(MetadataError::InvalidDate),
    }
}

/// Whether `extension` can be the extension of a file name: it holds
/// neither a separator nor a dot.
pub open spec fn plain_extension(extension: Seq<char>) -> bool {
    !extension.contains('/') && !extension.contains('.')
}

/// A character that a timestamp is written with: a digit, a sign, or one of
/// the marks between the parts.
pub open spec fn is_stamp_char(c: char) -> bool {
    is_digit(c) || c == '-' || c == '+' || c == 'T' || c == ':'
}

/// Whether `c` is white space, as Unicode defines it.
pub fn whitespace(c: char) -> (is: bool)
    ensures
        is == is_whitespace(c),
{
    let code: u32 = c as u32;
    (0x09 <= code && code <= 0x0d) || code == 0x20 || code == 0x85 || code == 0xa0 || code
        == 0x1680 || (0x2000 <= code && code <= 0x200a) || code == 0x2028 || code == 0x2029
        || code == 0x202f || code == 0x205f || code == 0x3000
}

/// The first index from `start` on at which `c` stands in `v`, or the length
/// of `v`.
pub fn find_from(v: &Vec<char>, c: char, start: usize) -> (found: usize)
    requires
        start <= v.len(),
    ensures
        found == index_from(v@, c, start as int),
        start <= found <= v.len(),
{
    let mut i: usize = start;
    while i < v.len() && v[i] != c
        invariant
            start <= i <= v.len(),
            index_from(v@, c, start as int) == index_from(v@, c, i as int),
        decreases v.len() - i,
    {
        i += 1;
    }
    i
}

/// The capture metadata of one file: who took the picture, when, and the
/// extension of the file.
#[derive(Debug)]
pub struct Metadata {
    artist: String,
    date: Timestamp,
    extension: String,
}

impl View for Metadata {
    type V = MetadataView;

    closed spec fn view(&self) -> MetadataView {
        MetadataView { artist: self.artist@, date: self.date@, extension: self.extension@ }
    }
}

impl Metadata {
    #[verifier::type_invariant]
    spec fn well_formed(self) -> bool {
        plain_extension(self.extension@)
    }

    /// The arguments with which the metadata tool is run on the file at
    /// `path`, the name of the tool first. The tool then prints the capture
    /// date and the artist, separated by a tab.
    pub fn exiftool_command(path: &str) -> (command: Vec<String>)
        ensures
            texts(command@) == seq![
                "exiftool"@,
                "-d"@,
                INPUT_DATE_FMT@,
                "-createdate"@,
                "-artist"@,
                "-T"@,
                path@,
            ],
            command@.len() == 7,
    {
        let mut command: Vec<String> = Vec::new();
        command.push("exiftool".to_owned());
        command.push("-d".to_owned());
        command.push(INPUT_DATE_FMT.to_owned());
        command.push("-createdate".to_owned());
        command.push("-artist".to_owned());
        command.push("-T".to_owned());
        command.push(path.to_owned());
        assert(texts(command@) =~= seq![
            "exiftool"@,
            "-d"@,
            INPUT_DATE_FMT@,
            "-createdate"@,
            "-artist"@,
            "-T"@,
            path@,
        ]);
        command
    }

    /// The metadata made of a capture date as it was read, the artist, and
    /// the extension of the file at `path`.
    pub fn from_fields(
        date: Result<DateTimeFields, chrono::format::ParseError>,
        artist: String,
        path: &str,
    ) -> (made: Result<Metadata, MetadataError>)
        requires
            carries_extension(path@),
        ensures
            match made {
                Ok(metadata) => assembled(fields_read(date), artist@, path@) == Ok::<
                    _,
                    MetadataError,
                >(metadata@),
                Err(error) => assembled(fields_read(date), artist@, path@) == Err::<
                    MetadataView,
                    _,
                >(error),
            },
    {
        let date = match Timestamp::from_parsed(date) {
            Ok(date) => date,
            Err(error) => {
                return Err(error);
            },
        };
        let extension = match extension(path) {
            Some(extension) => extension,
            None => vstd::pervasive::unreached(),
        };
        proof {
            lemma_extension_plain(path@);
        }
        Ok(Metadata { artist, date, extension })
    }

    /// Resolves the metadata of the file at `path` from what the metadata
    /// tool printed for it: the capture date, a tab, the artist.
    pub fn exiftool(output: &str, path: &str) -> (made: Result<Metadata, MetadataError>)
        requires
            carries_extension(path@),
        ensures
            match made {
                Ok(metadata) => resolved(output@, path@) == Ok::<_, MetadataError>(metadata@),
                Err(error) => resolved(output@, path@) == Err::<MetadataView, _>(error),
            },
    {
        let chars = to_chars(output);
        if chars.len() == 0 {
            return Err(MetadataError::MissingDate);
        }
        let date_end = find_from(&chars, '\t', 0);
        if date_end >= chars.len() - 1 {
            return Err(MetadataError::MissingArtist);
        }
        let artist_end = find_from(&chars, '\t', date_end + 1);
        let mut date: Vec<char> = Vec::new();
        extend_range(&mut date, &chars, 0, date_end);
        let mut artist: Vec<char> = Vec::new();
        extend_range(&mut artist, &chars, date_end + 1, artist_end);
        let date = from_chars(&date);
        let parsed = parse_datetime(date.as_str(), INPUT_DATE_FMT);
        Metadata::from_fields(parsed, from_chars(&artist), path)
    }

    /// The artist, as the metadata tool printed it.
    pub fn artist(&self) -> (artist: &String)
        ensures
            artist@ == self@.artist,
    {
        &self.artist
    }

    /// The moment of capture.
    pub fn date(&self) -> (date: Timestamp)
        ensures
            date@ == self@.date,
            date@.is_valid(),
    {
        let date = self.date;
        let fields = date.fields();
        date
    }

    /// The extension of the file, without a dot.
    pub fn extension(&self) -> (extension: &String)
        ensures
            extension@ == self@.extension,
            plain_extension(extension@),
    {
        proof {
            use_type_invariant(self);
        }
        &self.extension
    }

    /// The initials of the artist: the first character of each word of the
    /// name, where white space parts the words.
    pub fn initials(&self) -> (initials: String)
        ensures
            initials@ == initials_of(self@.artist),
    {
        let chars = to_chars(self.artist.as_str());
        let mut initials: Vec<char> = Vec::new();
        let mut i: usize = 0;
        while i < chars.len()
            invariant
                i <= chars.len(),
                initials@ == initials_upto(chars@, i as int),
            decreases chars.len() - i,
        {
            if !whitespace(chars[i]) && (i == 0 || whitespace(chars[i - 1])) {
                initials.push(chars[i]);
            }
            i += 1;
        }
        from_chars(&initials)
    }

    /// The candidate destination of the file under the directory
    /// `destination`: `<initials>-<YYYY-MM-DDTHH:MM:SS>.<extension>`.
    pub fn new_file_name(&self, destination: &str) -> (path: String)
        requires
            absolute(destination@),
        ensures
            path@ == self@.candidate(destination@),
            carries_extension(path@),
            extension_text(path@) == self@.extension,
            !numbered(path@),
    {
        let mut file_name = to_chars(self.initials().as_str());
        file_name.push('-');
        extend_str(&mut file_name, self.date.format().as_str());
        file_name.push('.');
        extend_str(&mut file_name, self.extension.as_str());
        let moment = self.date.fields();
        let path = join(destination, from_chars(&file_name).as_str());
        proof {
            use_type_invariant(self);
            assert(path@ == self@.candidate(destination@));
            lemma_candidate_shape(self@, destination@);
        }
        path
    }
}

/// Metadata that agree to the second give the same candidate destination
/// under the same directory, however often it is derived.
pub proof fn lemma_naming_idempotent(a: MetadataView, b: MetadataView, destination: Seq<char>)
    requires
        a.same_to_the_second(b),
    ensures
        a.candidate(destination) == b.candidate(destination),
{
}

/// The extension of a path holds neither a separator nor a dot.
pub proof fn lemma_extension_plain(path: Seq<char>)
    requires
        carries_extension(path),
    ensures
        plain_extension(extension_text(path)),
{
    lemma_last_index_of(path, '/');
    lemma_last_index_of(path, '.');
    let ext = extension_text(path);
    assert forall|i: int| 0 <= i < ext.len() implies ext[i] != '/' && ext[i] != '.' by {
        assert(ext[i] == path[final_dot(path) + 1 + i]);
    }
}

/// A written timestamp is not empty and holds neither a separator nor a dot.
pub proof fn lemma_iso_seconds_plain(fields: DateTimeFields)
    ensures
        fields.iso_seconds().len() >= 19,
        forall|i: int|
            0 <= i < fields.iso_seconds().len() ==> is_stamp_char(
                #[trigger] fields.iso_seconds()[i],
            ),
        !fields.iso_seconds().contains('/'),
        !fields.iso_seconds().contains('.'),
{
    let year = fields.written_year();
    let month = zero_padded(fields.month as nat, 2);
    let day = zero_padded(fields.day as nat, 2);
    let hour = zero_padded(fields.hour as nat, 2);
    let minute = zero_padded(fields.minute as nat, 2);
    let second = zero_padded(fields.written_second(), 2);
    lemma_zero_padded(fields.month as nat, 2);
    lemma_zero_padded(fields.day as nat, 2);
    lemma_zero_padded(fields.hour as nat, 2);
    lemma_zero_padded(fields.minute as nat, 2);
    lemma_zero_padded(fields.written_second(), 2);
    assert(year.len() >= 4 && forall|i: int| 0 <= i < year.len() ==> is_stamp_char(
        #[trigger] year[i],
    )) by {
        if 0 <= fields.year <= 9999 {
            lemma_zero_padded(fields.year as nat, 4);
        } else if fields.year < 0 {
            lemma_zero_padded((-fields.year) as nat, 4);
            let digits = zero_padded((-fields.year) as nat, 4);
            assert forall|i: int| 0 <= i < year.len() implies is_stamp_char(#[trigger] year[i]) by {
                if i > 0 {
                    assert(year[i] == digits[i - 1]);
                }
            }
        } else {
            lemma_zero_padded(fields.year as nat, 4);
            let digits = zero_padded(fields.year as nat, 4);
            assert forall|i: int| 0 <= i < year.len() implies is_stamp_char(#[trigger] year[i]) by {
                if i > 0 {
                    assert(year[i] == digits[i - 1]);
                }
            }
        }
    }
    let text = fields.iso_seconds();
    let a = year + seq!['-'];
    let b = a + month + seq!['-'];
    let c = b + day + seq!['T'];
    let d = c + hour + seq![':'];
    let e = d + minute + seq![':'];
    assert(text =~= e + second);
    assert forall|i: int| 0 <= i < text.len() implies is_stamp_char(#[trigger] text[i]) by {
        if i < year.len() {
            assert(text[i] == year[i]);
        } else if i < a.len() {
        } else if i < a.len() + month.len() {
            assert(text[i] == month[i - a.len()]);
        } else if i < b.len() {
        } else if i < b.len() + day.len() {
            assert(text[i] == day[i - b.len()]);
        } else if i < c.len() {
        } else if i < c.len() + hour.len() {
            assert(text[i] == hour[i - c.len()]);
        } else if i < d.len() {
        } else if i < d.len() + minute.len() {
            assert(text[i] == minute[i - d.len()]);
        } else if i < e.len() {
        } else {
            assert(text[i] == second[i - e.len()]);
        }
    }
    assert forall|i: int| 0 <= i < text.len() implies text[i] != '/' && text[i] != '.' by {
        assert(is_stamp_char(text[i]));
    }
}

/// The written seconds of a valid moment take two places, behind a colon.
pub proof fn lemma_iso_seconds_end(fields: DateTimeFields)
    requires
        fields.is_valid(),
    ensures
        fields.iso_seconds().len() >= 19,
        fields.iso_seconds()[fields.iso_seconds().len() - 3] == ':',
{
    lemma_iso_seconds_plain(fields);
    let second = zero_padded(fields.written_second(), 2);
    assert(second.len() == 2) by {
        reveal_with_fuel(decimal, 2);
        lemma_zero_padded(fields.written_second(), 2);
    }
    let text = fields.iso_seconds();
    let front = text.subrange(0, text.len() - 2);
    assert(text =~= front + second);
}

/// A candidate destination carries an extension, provided that the
/// extension of the metadata holds no separator.
pub proof fn lemma_candidate_carries_extension(metadata: MetadataView, destination: Seq<char>)
    requires
        !metadata.extension.contains('/'),
    ensures
        carries_extension(metadata.candidate(destination)),
{
    let stamp = metadata.date.iso_seconds();
    lemma_iso_seconds_plain(metadata.date);
    let path = metadata.candidate(destination);
    let tail = seq!['-'] + stamp + seq!['.'] + metadata.extension;
    let dash = path.len() - tail.len();
    let dot = path.len() - metadata.extension.len() - 1;
    assert(path =~= path.subrange(0, dash) + tail);
    assert forall|j: int| dash <= j < path.len() implies path[j] != '/' by {
        let k = j - dash;
        assert(path[j] == tail[k]);
        if k == 0 {
        } else if k <= stamp.len() {
            assert(tail[k] == stamp[k - 1]);
        } else if k == stamp.len() + 1 {
        } else {
            assert(tail[k] == metadata.extension[k - stamp.len() - 2]);
        }
    }
    assert(path[dot] == '.') by {
        assert(path[dot] == tail[dot - dash]);
    }
    lemma_last_index_of(path, '/');
    lemma_last_index_of(path, '.');
    assert(last_index_of(path, '/') < dash);
    assert(final_dot(path) >= dot);
    assert(file_name(path).len() > 2);
}

/// A candidate destination ends in the extension of the metadata, behind
/// the dot of its extension, and the written seconds stand in front of that
/// dot: the candidate is not numbered as a suffixed path is.
pub proof fn lemma_candidate_shape(metadata: MetadataView, destination: Seq<char>)
    requires
        plain_extension(metadata.extension),
        metadata.date.is_valid(),
    ensures
        carries_extension(metadata.candidate(destination)),
        extension_text(metadata.candidate(destination)) == metadata.extension,
        !numbered(metadata.candidate(destination)),
{
    lemma_candidate_carries_extension(metadata, destination);
    lemma_iso_seconds_end(metadata.date);
    let stamp = metadata.date.iso_seconds();
    let path = metadata.candidate(destination);
    let tail = seq!['-'] + stamp + seq!['.'] + metadata.extension;
    let dash = path.len() - tail.len();
    let dot = path.len() - metadata.extension.len() - 1;
    assert(path =~= path.subrange(0, dash) + tail);
    assert(path[dot] == tail[dot - dash]);
    assert forall|j: int| dot < j < path.len() implies path[j] != '.' by {
        assert(path[j] == tail[j - dash]);
        assert(tail[j - dash] == metadata.extension[j - dot - 1]);
    }
    lemma_last_index_is(path, '.', dot);
    assert(extension_text(path) =~= metadata.extension);
    assert(path[dot - 3] == ':') by {
        assert(path[dot - 3] == tail[dot - 3 - dash]);
        assert(tail[dot - 3 - dash] == stamp[stamp.len() - 3]);
    }
}

} // verus!
