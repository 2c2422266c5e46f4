//! Building the playlist: which files count as audio files, and their order.

use crate::natural::{
    all_digits, chars_of, digit_value, digits_value, fold_key, fold_key_exec, is_digit, pow10,
};
use crate::sorting::{is_stable_sort_order, natural_sort_order};
use vstd::prelude::*;

verus! {

/// The file extensions that the viewer opens, in lower case.
pub open spec fn audio_extension_names() -> Seq<Seq<char>> {
    seq![
        seq!['w', 'a', 'v'],
        seq!['f', 'l', 'a', 'c'],
        seq!['m', 'p', '3'],
        seq!['o', 'g', 'g'],
        seq!['o', 'p', 'u', 's'],
        seq!['m', '4', 'a'],
        seq!['a', 'a', 'c'],
        seq!['a', 'i', 'f', 'f'],
        seq!['a', 'i', 'f'],
        seq!['w', 'm', 'a'],
        seq!['m', 'p', '4'],
        seq!['a', 'p', 'e'],
    ]
}

/// `e`, with its ASCII letters lower-cased, is `name` (a lower-case name).
pub open spec fn folds_to(e: Seq<char>, name: Seq<char>) -> bool {
    &&& e.len() == name.len()
    &&& forall|k: int| 0 <= k < e.len() ==> fold_key(#[trigger] e[k]) == name[k] as u32
}

/// Whether `e` names an audio format, ignoring ASCII case.
pub open spec fn is_audio_extension_spec(e: Seq<char>) -> bool {
    exists|i: int| 0 <= i < audio_extension_names().len() && folds_to(e, #[trigger] audio_extension_names()[i])
}

fn extension_names() -> (v: Vec<Vec<char>>)
    ensures
        v@.map_values(|x: Vec<char>| x@) == audio_extension_names(),
{
    let v = vec![
        vec!['w', 'a', 'v'],
        vec!['f', 'l', 'a', 'c'],
        vec!['m', 'p', '3'],
        vec!['o', 'g', 'g'],
        vec!['o', 'p', 'u', 's'],
        vec!['m', '4', 'a'],
        vec!['a', 'a', 'c'],
        vec!['a', 'i', 'f', 'f'],
        vec!['a', 'i', 'f'],
        vec!['w', 'm', 'a'],
        vec!['m', 'p', '4'],
        vec!['a', 'p', 'e'],
    ];
    assert(v@.map_values(|x: Vec<char>| x@) =~= audio_extension_names());
    v
}


/// The code of `c` after ASCII lower-casing.
pub open spec fn ascii_lower_code(c: char) -> u32 {
    if ('A' as u32) <= (c as u32) && (c as u32) <= ('Z' as u32) {
        ((c as u32) + 32) as u32
    } else {
        c as u32
    }
}

/// `e`, ASCII-lower-cased, is the lower-case word `word`.
pub open spec fn lowercases_to(e: Seq<char>, word: Seq<char>) -> bool {
    e.len() == word.len() && forall|k: int| 0 <= k < e.len() ==> ascii_lower_code(#[trigger] e[k]) == word[k] as u32
}

/// `e`, ASCII-lower-cased, is one of wav, flac, mp3, ogg, opus, m4a, aac,
/// aiff, aif, wma, mp4, ape.
pub open spec fn names_audio_format(e: Seq<char>) -> bool {
    lowercases_to(e, seq!['w', 'a', 'v']) || lowercases_to(
            e,
            seq!['f', 'l', 'a', 'c'],
        ) || lowercases_to(e, seq!['m', 'p', '3']) || lowercases_to(e, seq!['o', 'g', 'g'])
            || lowercases_to(e, seq!['o', 'p', 'u', 's']) || lowercases_to(e, seq!['m', '4', 'a'])
            || lowercases_to(e, seq!['a', 'a', 'c']) || lowercases_to(e, seq!['a', 'i', 'f', 'f'])
            || lowercases_to(e, seq!['a', 'i', 'f']) || lowercases_to(e, seq!['w', 'm', 'a'])
            || lowercases_to(e, seq!['m', 'p', '4']) || lowercases_to(e, seq!['a', 'p', 'e'])
}

/// An extension names an audio format exactly when, ASCII-lower-cased, it is
/// one of wav, flac, mp3, ogg, opus, m4a, aac, aiff, aif, wma, mp4, ape.
pub proof fn lemma_audio_extensions(e: Seq<char>)
    ensures
        is_audio_extension_spec(e) <==> names_audio_format(e),
{
    let names = audio_extension_names();
    assert forall|i: int| 0 <= i < names.len() implies (folds_to(e, #[trigger] names[i])
        <==> lowercases_to(e, names[i])) by {
        assert forall|k: int| 0 <= k < e.len() implies fold_key(e[k]) == ascii_lower_code(e[k]) by {}
    }
    if is_audio_extension_spec(e) {
        let i = choose|i: int| 0 <= i < names.len() && folds_to(e, #[trigger] names[i]);
        assert(lowercases_to(e, names[i]));
    }
    assert(names[0] == seq!['w', 'a', 'v']);
    assert(names[1] == seq!['f', 'l', 'a', 'c']);
    assert(names[2] == seq!['m', 'p', '3']);
    assert(names[3] == seq!['o', 'g', 'g']);
    assert(names[4] == seq!['o', 'p', 'u', 's']);
    assert(names[5] == seq!['m', '4', 'a']);
    assert(names[6] == seq!['a', 'a', 'c']);
    assert(names[7] == seq!['a', 'i', 'f', 'f']);
    assert(names[8] == seq!['a', 'i', 'f']);
    assert(names[9] == seq!['w', 'm', 'a']);
    assert(names[10] == seq!['m', 'p', '4']);
    assert(names[11] == seq!['a', 'p', 'e']);
}

fn folds_to_exec(e: &Vec<char>, name: &Vec<char>) -> (r: bool)
    ensures
        r == folds_to(e@, name@),
{
    if e.len() != name.len() {
        return false;
    }
    let mut k: usize = 0;
    while k < e.len()
        invariant
            e.len() == name.len(),
            k <= e.len(),
            forall|m: int| 0 <= m < k ==> fold_key(#[trigger] e@[m]) == name@[m] as u32,
        decreases e.len() - k,
    {
        if fold_key_exec(e[k]) != name[k] as u32 {
            return false;
        }
        k = k + 1;
    }
    true
}

/// Whether `ext` is the extension of an audio format that the viewer opens
/// (wav, flac, mp3, ogg, opus, m4a, aac, aiff, aif, wma, mp4, ape), ignoring
/// ASCII case.
pub fn is_audio_extension(ext: &str) -> (r: bool)
    ensures
        r == is_audio_extension_spec(ext@),
        r == names_audio_format(ext@),
{
    proof {
        lemma_audio_extensions(ext@);
    }
    let e = chars_of(ext);
    let names = extension_names();
    let ghost ns = names@.map_values(|x: Vec<char>| x@);
    let mut i: usize = 0;
    while i < names.len()
        invariant
            i <= names.len(),
            ns == names@.map_values(|x: Vec<char>| x@),
            ns == audio_extension_names(),
            e@ == ext@,
            is_audio_extension_spec(ext@) == names_audio_format(ext@),
            forall|m: int| 0 <= m < i ==> !folds_to(e@, #[trigger] ns[m]),
        decreases names.len() - i,
    {
        assert(ns[i as int] == names@[i as int]@);
        if folds_to_exec(&e, &names[i]) {
            return true;
        }
        i = i + 1;
    }
    false
}


/// A regular file met while walking a directory: the value that stands for
/// its path, its file name (empty when the name is not valid UTF-8) and its
/// extension (absent when it has none or it is not valid UTF-8).
pub struct FoundFile<P> {
    pub path: P,
    pub name: String,
    pub extension: Option<String>,
}

/// What the path given on the command line turned out to be.
pub enum AudioInput<P> {
    /// A regular file: it is played whatever its extension.
    File(P),
    /// A directory, with every regular file found below it.
    Directory(Vec<FoundFile<P>>),
    /// Neither a file nor a directory.
    Missing,
}

/// Whether a file found in a directory walk is an audio file.
pub open spec fn is_audio_file<P>(f: FoundFile<P>) -> bool {
    match f.extension {
        Some(e) => is_audio_extension_spec(e@),
        None => false,
    }
}

/// The audio files among `found`, in the order they were found.
pub open spec fn audio_files<P>(found: Seq<FoundFile<P>>) -> Seq<FoundFile<P>> {
    found.filter(|f: FoundFile<P>| is_audio_file(f))
}

/// A directory walk keeps a found file exactly when it has an extension
/// that, ASCII-lower-cased, is one of wav, flac, mp3, ogg, opus, m4a, aac,
/// aiff, aif, wma, mp4, ape: a file with any other extension, or with none,
/// is never kept.
pub proof fn lemma_directory_keeps_audio_only<P>(found: Seq<FoundFile<P>>)
    ensures
        forall|f: FoundFile<P>| #[trigger] audio_files(found).contains(f) <==> (found.contains(f)
            && match f.extension {
            Some(e) => names_audio_format(e@),
            None => false,
        }),
{
    let pred = |f: FoundFile<P>| is_audio_file(f);
    assert forall|f: FoundFile<P>| #[trigger] audio_files(found).contains(f) <==> (found.contains(
        f) && match f.extension {
        Some(e) => names_audio_format(e@),
        None => false,
    }) by {
        match f.extension {
            Some(e) => lemma_audio_extensions(e@),
            None => {},
        }
        if audio_files(found).contains(f) {
            found.lemma_filter_contains_rev(pred, f);
            let i = choose|i: int| 0 <= i < audio_files(found).len() && audio_files(found)[i] == f;
            found.lemma_filter_pred(pred, i);
        }
        if found.contains(f) && is_audio_file(f) {
            let i = choose|i: int| 0 <= i < found.len() && found[i] == f;
            found.lemma_filter_contains(pred, i);
        }
    }
}

/// The file names of `files`, as character sequences.
pub open spec fn file_names<P>(files: Seq<FoundFile<P>>) -> Seq<Seq<char>> {
    files.map_values(|f: FoundFile<P>| f.name@)
}

/// `out` lists the paths of `files` in the stable natural order of their
/// names.
pub open spec fn naturally_sorted_paths<P>(files: Seq<FoundFile<P>>, out: Seq<P>) -> bool {
    exists|order: Seq<usize>|
        #![trigger is_stable_sort_order(file_names(files), order)]
        {
            &&& is_stable_sort_order(file_names(files), order)
            &&& out.len() == order.len()
            &&& forall|k: int| 0 <= k < out.len() ==> out[k] == #[trigger] files[order[k] as int].path
        }
}

/// Some position before `k` in `order` holds `m`.
spec fn taken_before(order: Seq<usize>, k: int, m: int) -> bool {
    exists|w: int| 0 <= w < k && #[trigger] order[w] as int == m
}

fn is_audio_found_file<P>(f: &FoundFile<P>) -> (r: bool)
    ensures
        r == is_audio_file(*f),
{
    match &f.extension {
        Some(e) => is_audio_extension(e.as_str()),
        None => false,
    }
}

/// The paths of `files` in the stable natural order of their names.
fn sort_paths_by_name<P>(files: Vec<FoundFile<P>>) -> (out: Vec<P>)
    ensures
        naturally_sorted_paths(files@, out@),
{
    let n = files.len();
    let mut keys: Vec<Vec<char>> = Vec::new();
    for i in 0..n
        invariant
            n == files.len(),
            keys@.len() == i,
            forall|m: int| 0 <= m < i ==> (#[trigger] keys@[m])@ == files@[m].name@,
    {
        keys.push(chars_of(files[i].name.as_str()));
    }
    let order = natural_sort_order(&keys);
    let ghost names = file_names(files@);
    assert(keys@.map_values(|k: Vec<char>| k@) =~= names);
    let ghost fs = files@;
    let mut slots: Vec<Option<P>> = Vec::new();
    for f in it: files.into_iter()
        invariant
            it.seq() == fs,
            slots@.len() == it.index(),
            forall|m: int| 0 <= m < slots@.len() ==> #[trigger] slots@[m] == Some(fs[m].path),
    {
        slots.push(Some(f.path));
    }
    let mut out: Vec<P> = Vec::new();
    for k in 0..n
        invariant
            n == fs.len(),
            slots@.len() == n,
            is_stable_sort_order(names, order@),
            names.len() == n,
            out@.len() == k,
            forall|m: int| 0 <= m < k ==> out@[m] == #[trigger] fs[order@[m] as int].path,
            forall|m: int|
                0 <= m < n ==> #[trigger] slots@[m] == if taken_before(order@, k as int, m) {
                    None
                } else {
                    Some(fs[m].path)
                },
    {
        let idx = order[k];
        proof {
            assert(!taken_before(order@, k as int, idx as int)) by {
                if taken_before(order@, k as int, idx as int) {
                    let w = choose|w: int| 0 <= w < k && #[trigger] order@[w] as int == idx as int;
                    assert(order@[w] == order@[k as int]);
                }
            }
            assert forall|m: int| 0 <= m < n implies #[trigger] taken_before(order@, k + 1, m)
                == (taken_before(order@, k as int, m) || m == idx) by {
                if taken_before(order@, k + 1, m) {
                    let w = choose|w: int| 0 <= w < k + 1 && #[trigger] order@[w] as int == m;
                    if w < k {
                        assert(taken_before(order@, k as int, m));
                    }
                }
                if m == idx {
                    assert(order@[k as int] as int == m);
                }
            }
        }
        let taken = slots[idx].take();
        if let Some(p) = taken {
            out.push(p);
        }
    }
    assert(naturally_sorted_paths(fs, out@));
    out
}

/// The playlist for the path given on the command line: a file is played
/// alone, whatever its extension; a directory gives every audio file found
/// below it; anything else gives nothing.  Files are listed in the natural
/// order of their file names, files whose names tie in the order they were
/// found.
pub fn collect_audio_files<P>(input: AudioInput<P>) -> (out: Vec<P>)
    ensures
        match input {
            AudioInput::File(p) => out@ == seq![p],
            AudioInput::Directory(found) => naturally_sorted_paths(audio_files(found@), out@),
            AudioInput::Missing => out@.len() == 0,
        },
{
    match input {
        AudioInput::File(p) => {
            let mut out: Vec<P> = Vec::new();
            out.push(p);
            out
        },
        AudioInput::Directory(found) => {
            let ghost fs = found@;
            let mut kept: Vec<FoundFile<P>> = Vec::new();
            for f in it: found.into_iter()
                invariant
                    it.seq() == fs,
                    kept@ == audio_files(fs.take(it.index() as int)),
            {
                let ghost idx = it.index();
                let keep = is_audio_found_file(&f);
                proof {
                    assert(fs.take(idx + 1).drop_last() =~= fs.take(idx as int));
                    assert(fs.take(idx + 1).last() == f);
                    reveal_with_fuel(Seq::filter, 1);
                }
                if keep {
                    kept.push(f);
                }
            }
            assert(fs.take(fs.len() as int) =~= fs);
            sort_paths_by_name(kept)
        },
        AudioInput::Missing => Vec::new(),
    }
}


// ---------------------------------------------------------------------------
// Time labels
// ---------------------------------------------------------------------------

/// The character of decimal digit `d`.
pub open spec fn digit_char(d: nat) -> char {
    if d == 0 {
        '0'
    } else if d == 1 {
        '1'
    } else if d == 2 {
        '2'
    } else if d == 3 {
        '3'
    } else if d == 4 {
        '4'
    } else if d == 5 {
        '5'
    } else if d == 6 {
        '6'
    } else if d == 7 {
        '7'
    } else if d == 8 {
        '8'
    } else {
        '9'
    }
}

/// `n` in decimal, without leading zeros.
pub open spec fn decimal(n: nat) -> Seq<char>
    decreases n,
{
    if n < 10 {
        seq![digit_char(n)]
    } else {
        decimal(n / 10).push(digit_char(n % 10))
    }
}

/// `n` in decimal, padded with zeros to at least two digits.
pub open spec fn two_digits(n: nat) -> Seq<char> {
    if n < 10 {
        seq!['0', digit_char(n)]
    } else {
        decimal(n)
    }
}

/// `secs` seconds as `h:mm:ss`, or as `m:ss` under an hour.
pub open spec fn clock_text(secs: nat) -> Seq<char> {
    let h = secs / 3600;
    let m = (secs % 3600) / 60;
    let s = secs % 60;
    if h > 0 {
        decimal(h) + seq![':'] + two_digits(m) + seq![':'] + two_digits(s)
    } else {
        decimal(m) + seq![':'] + two_digits(s)
    }
}

/// The fraction of a second `t` thousandths (rounded; 1000 when it rounded
/// up to a whole second) as a decimal point and up to three digits, trailing
/// zeros dropped; nothing for 0 and for 1000.
pub open spec fn fraction_text(t: nat) -> Seq<char> {
    let d1 = t / 100;
    let d2 = (t / 10) % 10;
    let d3 = t % 10;
    if t == 0 || t >= 1000 {
        Seq::empty()
    } else if d3 != 0 {
        seq!['.', digit_char(d1), digit_char(d2), digit_char(d3)]
    } else if d2 != 0 {
        seq!['.', digit_char(d1), digit_char(d2)]
    } else {
        seq!['.', digit_char(d1)]
    }
}

/// `f` is a decimal point followed by one to three digits, the last of them
/// not zero, that read as `t` thousandths: the digits, padded on the right
/// with zeros to three, are the number `t`.
pub open spec fn reads_back_as_thousandths(f: Seq<char>, t: nat) -> bool {
    &&& 2 <= f.len() <= 4
    &&& f[0] == '.'
    &&& all_digits(f.skip(1))
    &&& digit_value(f.last()) != 0
    &&& digits_value(f.skip(1)) * pow10((4 - f.len()) as nat) == t
}

proof fn lemma_digit_char(d: nat)
    requires
        d < 10,
    ensures
        is_digit(digit_char(d)),
        digit_value(digit_char(d)) == d,
{
}

#[verifier::spinoff_prover]
#[verifier::rlimit(40)]
/// The fraction of a time label reads back as the thousandths it was made
/// from, with nothing but trailing zeros left out.
pub proof fn lemma_fraction_text_reads_back(t: nat)
    requires
        0 < t < 1000,
    ensures
        reads_back_as_thousandths(fraction_text(t), t),
{
    let d1 = t / 100;
    let d2 = (t / 10) % 10;
    let d3 = t % 10;
    assert(t == 100 * d1 + 10 * d2 + d3 && d1 < 10 && d2 < 10 && d3 < 10) by (nonlinear_arith)
        requires
            0 < t < 1000,
            d1 == t / 100,
            d2 == (t / 10) % 10,
            d3 == t % 10,
    ;
    lemma_digit_char(d1);
    lemma_digit_char(d2);
    lemma_digit_char(d3);
    let f = fraction_text(t);
    let g = f.skip(1);
    assert(forall|k: int| 0 <= k < g.len() ==> g[k] == f[k + 1]);
    reveal_with_fuel(digits_value, 4);
    if d3 != 0 {
        assert(f == seq!['.', digit_char(d1), digit_char(d2), digit_char(d3)]);
        assert(g =~= seq![digit_char(d1), digit_char(d2), digit_char(d3)]);
        assert(g.drop_last() =~= seq![digit_char(d1), digit_char(d2)]);
        assert(g.drop_last().drop_last() =~= seq![digit_char(d1)]);
        assert(g.drop_last().drop_last().drop_last() =~= Seq::<char>::empty());
        assert(digits_value(g) == (d1 * 10 + d2) * 10 + d3);
        assert(pow10(0) == 1);
        assert(f.last() == digit_char(d3));
        assert(((4 - f.len()) as nat) == 0);
        assert(digits_value(f.skip(1)) * pow10((4 - f.len()) as nat) == t);
    } else if d2 != 0 {
        assert(f == seq!['.', digit_char(d1), digit_char(d2)]);
        assert(g =~= seq![digit_char(d1), digit_char(d2)]);
        assert(g.drop_last() =~= seq![digit_char(d1)]);
        assert(g.drop_last().drop_last() =~= Seq::<char>::empty());
        assert(digits_value(g) == d1 * 10 + d2);
        assert(pow10(1) == 10) by {
            reveal_with_fuel(pow10, 2);
        }
        assert(f.last() == digit_char(d2));
        assert(((4 - f.len()) as nat) == 1);
        assert(digits_value(f.skip(1)) * pow10((4 - f.len()) as nat) == t);
    } else {
        assert(f == seq!['.', digit_char(d1)]);
        assert(g =~= seq![digit_char(d1)]);
        assert(g.drop_last() =~= Seq::<char>::empty());
        assert(digits_value(g) == d1);
        assert(pow10(2) == 100) by {
            reveal_with_fuel(pow10, 3);
        }
        assert(f.last() == digit_char(d1));
        assert(((4 - f.len()) as nat) == 2);
        assert(digits_value(f.skip(1)) * pow10((4 - f.len()) as nat) == t);
    }
    assert(all_digits(g));
    assert(f[0] == '.');
    assert(digit_value(f.last()) != 0);
    assert(2 <= f.len() <= 4);
}

/// `n` in decimal reads back as `n`: digits only, no leading zero.
pub proof fn lemma_decimal_reads_back(n: nat)
    ensures
        all_digits(decimal(n)),
        digits_value(decimal(n)) == n,
        decimal(n).len() >= 1,
        decimal(n).len() > 1 ==> digit_value(decimal(n)[0]) != 0,
        decimal(n).len() == 1 <==> n < 10,
    decreases n,
{
    if n < 10 {
        lemma_digit_char(n);
        assert(decimal(n).drop_last() =~= Seq::<char>::empty());
        assert(digits_value(Seq::<char>::empty()) == 0);
    } else {
        lemma_decimal_reads_back(n / 10);
        lemma_digit_char(n % 10);
        let d = decimal(n);
        let p = decimal(n / 10);
        assert(d.drop_last() =~= p);
        assert forall|k: int| 0 <= k < d.len() implies is_digit(#[trigger] d[k]) by {
            if k < p.len() {
                assert(d[k] == p[k]);
            }
        }
        assert(d[0] == p[0]);
        assert(n == (n / 10) * 10 + n % 10);
        if p.len() == 1 {
            lemma_digit_char(n / 10);
            assert(p[0] == digit_char(n / 10));
        }
    }
}

/// Two digits that read back as `n`, for `n` under 100.
pub proof fn lemma_two_digits_reads_back(n: nat)
    requires
        n < 100,
    ensures
        all_digits(two_digits(n)),
        two_digits(n).len() == 2,
        digits_value(two_digits(n)) == n,
{
    lemma_decimal_reads_back(n);
    if n < 10 {
        lemma_digit_char(n);
        lemma_digit_char(0);
        let t = two_digits(n);
        assert(t == seq![digit_char(0), digit_char(n)]);
        assert(t.drop_last() =~= seq![digit_char(0)]);
        assert(t.drop_last().drop_last() =~= Seq::<char>::empty());
        assert(digits_value(Seq::<char>::empty()) == 0);
        assert(digits_value(t.drop_last()) == 0);
    } else {
        lemma_decimal_reads_back(n / 10);
        assert(decimal(n / 10).len() == 1);
    }
}

/// A clock label reads back as the seconds it was made from: under an hour
/// it is minutes, a colon and two digits of seconds; from an hour on it is
/// hours, a colon, two digits of minutes, a colon and two digits of seconds,
/// minutes and seconds under 60 and the hours without a leading zero.
pub proof fn lemma_clock_text_reads_back(secs: nat)
    ensures
        secs < 3600 ==> exists|m: Seq<char>, s: Seq<char>|
            #![trigger digits_value(m), digits_value(s)]
            {
                &&& clock_text(secs) == m + seq![':'] + s
                &&& all_digits(m) && all_digits(s) && m.len() >= 1 && s.len() == 2
                &&& (m.len() > 1 ==> digit_value(m[0]) != 0)
                &&& digits_value(s) < 60
                &&& digits_value(m) * 60 + digits_value(s) == secs
            },
        secs >= 3600 ==> exists|h: Seq<char>, m: Seq<char>, s: Seq<char>|
            #![trigger digits_value(h), digits_value(m), digits_value(s)]
            {
                &&& clock_text(secs) == h + seq![':'] + m + seq![':'] + s
                &&& all_digits(h) && all_digits(m) && all_digits(s)
                &&& h.len() >= 1 && m.len() == 2 && s.len() == 2
                &&& digit_value(h[0]) != 0
                &&& digits_value(m) < 60 && digits_value(s) < 60
                &&& digits_value(h) * 3600 + digits_value(m) * 60 + digits_value(s) == secs
            },
{
    let hh = secs / 3600;
    let mm = (secs % 3600) / 60;
    let ss = secs % 60;
    assert(secs == hh * 3600 + mm * 60 + ss && mm < 60 && ss < 60) by (nonlinear_arith)
        requires
            hh == secs / 3600,
            mm == (secs % 3600) / 60,
            ss == secs % 60,
    ;
    lemma_decimal_reads_back(hh);
    lemma_decimal_reads_back(mm);
    lemma_two_digits_reads_back(mm);
    lemma_two_digits_reads_back(ss);
    if secs < 3600 {
        assert(hh == 0);
        let m = decimal(mm);
        let s = two_digits(ss);
        assert(clock_text(secs) == m + seq![':'] + s);
    } else {
        assert(hh > 0);
        let h = decimal(hh);
        let m = two_digits(mm);
        let s = two_digits(ss);
        assert(clock_text(secs) == h + seq![':'] + m + seq![':'] + s);
        if h.len() == 1 {
            lemma_digit_char(hh);
            assert(h[0] == digit_char(hh));
        }
        assert(digit_value(h[0]) != 0);
    }
}

/// Calls std's `String::push`.  Trusted: the contract claims that afterwards
/// the string is the old one with `c` appended at the end, as the function's
/// documentation says.
#[verifier::external_body]
fn push_char(s: &mut String, c: char)
    ensures
        final(s)@ == old(s)@.push(c),
{
    s.push(c);
}

fn digit_char_exec(d: u64) -> (c: char)
    requires
        d < 10,
    ensures
        c == digit_char(d as nat),
{
    match d {
        0 => '0',
        1 => '1',
        2 => '2',
        3 => '3',
        4 => '4',
        5 => '5',
        6 => '6',
        7 => '7',
        8 => '8',
        _ => '9',
    }
}

fn push_decimal(s: &mut String, n: u64)
    ensures
        final(s)@ == old(s)@ + decimal(n as nat),
    decreases n,
{
    if n >= 10 {
        push_decimal(s, n / 10);
    }
    push_char(s, digit_char_exec(n % 10));
    proof {
        if n < 10 {
            assert(n % 10 == n);
        }
    }
    assert(s@ =~= old(s)@ + decimal(n as nat)) by {
        if n >= 10 {
            assert(decimal(n as nat) == decimal((n / 10) as nat).push(digit_char((n % 10) as nat)));
        }
    }
}

fn push_two_digits(s: &mut String, n: u64)
    ensures
        final(s)@ == old(s)@ + two_digits(n as nat),
{
    if n < 10 {
        push_char(s, '0');
    }
    push_decimal(s, n);
    proof {
        if n < 10 {
            assert(decimal(n as nat) == seq![digit_char(n as nat)]);
        }
    }
    assert(s@ =~= old(s)@ + two_digits(n as nat));
}

/// A time label: `whole_seconds` as `h:mm:ss` (or `m:ss` under an hour),
/// followed by the fraction of a second, given in thousandths (`None` when
/// the fraction is at most a thousandth), with its trailing zeros dropped.
pub fn format_time(whole_seconds: u64, thousandths: Option<u32>) -> (text: String)
    requires
        thousandths matches Some(t) ==> t <= 1000,
    ensures
        text@ == clock_text(whole_seconds as nat) + match thousandths {
            Some(t) => fraction_text(t as nat),
            None => Seq::empty(),
        },
        match thousandths {
            Some(t) => if 0 < t < 1000 {
                reads_back_as_thousandths(text@.skip(clock_text(whole_seconds as nat).len() as int), t as nat)
            } else {
                text@ == clock_text(whole_seconds as nat)
            },
            None => text@ == clock_text(whole_seconds as nat),
        },
{
    let hours = whole_seconds / 3600;
    let minutes = (whole_seconds % 3600) / 60;
    let secs = whole_seconds % 60;
    let mut text = String::new();
    if hours > 0 {
        push_decimal(&mut text, hours);
        push_char(&mut text, ':');
        push_two_digits(&mut text, minutes);
    } else {
        push_decimal(&mut text, minutes);
    }
    push_char(&mut text, ':');
    push_two_digits(&mut text, secs);
    let ghost clock = text@;
    assert(clock =~= clock_text(whole_seconds as nat));
    if let Some(t) = thousandths {
        if t > 0 && t < 1000 {
            let t = t as u64;
            let d1 = t / 100;
            let d2 = (t / 10) % 10;
            let d3 = t % 10;
            push_char(&mut text, '.');
            push_char(&mut text, digit_char_exec(d1));
            if d2 != 0 || d3 != 0 {
                push_char(&mut text, digit_char_exec(d2));
            }
            if d3 != 0 {
                push_char(&mut text, digit_char_exec(d3));
            }
        }
        assert(text@ =~= clock + fraction_text(t as nat));
        proof {
            assert(text@.skip(clock.len() as int) =~= fraction_text(t as nat));
            if 0 < t < 1000 {
                lemma_fraction_text_reads_back(t as nat);
            }
        }
    } else {
        assert(text@ =~= clock + Seq::<char>::empty());
    }
    text
}

} // verus!
