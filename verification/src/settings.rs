//! What a worker is told on the command line.

use crate::text::{NumberError, append_number, chars_of, decimal, lemma_digits_of_decimal, lemma_number_of_decimal, number, parse_number};
use vstd::prelude::*;

verus! {

/// Where `c` first stands in `s`; the length of `s` where it does not.
pub open spec fn char_index(s: Seq<char>, c: char) -> nat
    decreases s.len(),
{
    if s.len() == 0 || s[0] == c {
        0
    } else {
        1 + char_index(s.drop_first(), c)
    }
}

/// The pieces of `s` between the places where `c` stands.
pub open spec fn split(s: Seq<char>, c: char) -> Seq<Seq<char>>
    decreases s.len(),
{
    let k = char_index(s, c);
    if k >= s.len() {
        seq![s]
    } else {
        seq![s.take(k as int)] + split(s.skip(k as int + 1), c)
    }
}

/// Why a text is not a range of layers.
#[derive(Debug, Clone, Copy, PartialEq, Eq, Structural)]
pub enum LayerRangeError {
    /// It does not consist of two parts with a dash between them.
    Format,
    /// One of the parts is not a number.
    Number(NumberError),
}

impl LayerRangeError {
    pub open spec fn text(self) -> Seq<char> {
        match self {
            LayerRangeError::Format =>
                "Layers range must be in the format 'start-end' (e.g. 0-15)"@,
            LayerRangeError::Number(e) => e.text(),
        }
    }

    /// The error in words.
    pub fn message(&self) -> (r: String)
        ensures
            r@ == self.text(),
    {
        match self {
            LayerRangeError::Format => {
                "Layers range must be in the format 'start-end' (e.g. 0-15)".to_owned()
            },
            LayerRangeError::Number(e) => e.message(),
        }
    }
}

/// The range of layers that a text stands for: two numbers with a dash between them.
pub open spec fn layer_range(s: Seq<char>) -> Result<(nat, nat), LayerRangeError> {
    let parts = split(s, '-');
    if parts.len() != 2 {
        Err(LayerRangeError::Format)
    } else {
        match number(parts[0]) {
            Err(e) => Err(LayerRangeError::Number(e)),
            Ok(start) => match number(parts[1]) {
                Err(e) => Err(LayerRangeError::Number(e)),
                Ok(end) => Ok((start, end)),
            },
        }
    }
}

/// A range of layers as text.
pub open spec fn range_text(start: nat, end: nat) -> Seq<char> {
    decimal(start) + "-"@ + decimal(end)
}

/// A range of layers as text.
pub fn layer_range_text(start: usize, end: usize) -> (r: String)
    ensures
        r@ == range_text(start as nat, end as nat),
{
    let mut r = String::new();
    append_number(&mut r, start);
    r.append("-");
    append_number(&mut r, end);
    assert(r@ =~= range_text(start as nat, end as nat));
    r
}

/// Where `c` first stands among the characters from `from` on.
fn index_of(chars: &Vec<char>, from: usize, c: char) -> (k: usize)
    requires
        from <= chars@.len(),
    ensures
        from <= k <= chars@.len(),
        k - from == char_index(chars@.skip(from as int), c),
{
    let mut k: usize = from;
    while k < chars.len() && chars[k] != c
        invariant
            from <= k <= chars@.len(),
            char_index(chars@.skip(from as int), c) == k - from + char_index(
                chars@.skip(k as int),
                c,
            ),
        decreases chars@.len() - k,
    {
        assert(chars@.skip(k as int).drop_first() =~= chars@.skip(k + 1));
        k = k + 1;
    }
    k
}

/// Reads a range of layers, such as `0-15`.
pub fn parse_layer_range(text: &str) -> (r: Result<(usize, usize), LayerRangeError>)
    ensures
        match r {
            Ok((start, end)) => layer_range(text@) == Ok::<(nat, nat), LayerRangeError>(
                (start as nat, end as nat),
            ),
            Err(e) => layer_range(text@) == Err::<(nat, nat), LayerRangeError>(e),
        },
{
    let chars: Vec<char> = chars_of(text);
    let n: usize = chars.len();
    let k: usize = index_of(&chars, 0, '-');
    assert(chars@.skip(0) =~= text@);
    if k == n {
        return Err(LayerRangeError::Format);
    }
    let second: usize = index_of(&chars, k + 1, '-');
    let ghost rest = text@.skip(k + 1);
    assert(split(text@, '-') == seq![text@.take(k as int)] + split(rest, '-'));
    if second != n {
        let ghost tail = rest.skip(char_index(rest, '-') as int + 1);
        assert(split(rest, '-') == seq![rest.take(char_index(rest, '-') as int)] + split(
            tail,
            '-',
        ));
        assert(split(tail, '-').len() >= 1);
        return Err(LayerRangeError::Format);
    }
    assert(split(rest, '-') == seq![rest]);
    assert(text@.take(k as int) =~= chars@.subrange(0, k as int));
    assert(rest =~= chars@.subrange(k + 1, n as int));
    let start: usize = match parse_number(&chars, 0, k) {
        Ok(start) => start,
        Err(e) => return Err(LayerRangeError::Number(e)),
    };
    let end: usize = match parse_number(&chars, k + 1, n) {
        Ok(end) => end,
        Err(e) => return Err(LayerRangeError::Number(e)),
    };
    Ok((start, end))
}

proof fn lemma_char_index_of(s: Seq<char>, c: char, k: int)
    requires
        0 <= k <= s.len(),
        forall|i: int| 0 <= i < k ==> s[i] != c,
        k < s.len() ==> s[k] == c,
    ensures
        char_index(s, c) == k,
    decreases s.len(),
{
    if s.len() > 0 && k > 0 {
        assert(s[0] != c);
        let t = s.drop_first();
        assert forall|i: int| 0 <= i < k - 1 implies t[i] != c by {
            assert(t[i] == s[i + 1]);
        }
        lemma_char_index_of(t, c, k - 1);
    }
}

/// A range of layers that was written as text is read back as it was.
pub proof fn lemma_layer_range_round_trip(start: nat, end: nat)
    requires
        start <= usize::MAX,
        end <= usize::MAX,
    ensures
        layer_range(range_text(start, end)) == Ok::<(nat, nat), LayerRangeError>((start, end)),
{
    reveal_strlit("-");
    let a = decimal(start);
    let b = decimal(end);
    let s = range_text(start, end);
    lemma_digits_of_decimal(start);
    lemma_digits_of_decimal(end);
    lemma_number_of_decimal(start);
    lemma_number_of_decimal(end);
    assert forall|i: int| 0 <= i < a.len() implies s[i] != '-' by {
        assert(s[i] == a[i]);
    }
    lemma_char_index_of(s, '-', a.len() as int);
    let rest = s.skip(a.len() as int + 1);
    assert(rest =~= b);
    assert forall|i: int| 0 <= i < b.len() implies b[i] != '-' by {}
    lemma_char_index_of(b, '-', b.len() as int);
    assert(s.take(a.len() as int) =~= a);
    assert(split(b, '-') == seq![b]);
    assert(split(s, '-') == seq![a] + seq![b]);
}

/// A text stands for a range of layers exactly where it is two numbers with a dash between them:
/// the range goes from the one to the other, in that order. What is wrong with the first number is
/// told first; any other text has the wrong format.
pub proof fn lemma_layer_range_of_parts(s: Seq<char>, k: int)
    requires
        0 <= k < s.len(),
        s[k] == '-',
        forall|i: int| 0 <= i < s.len() && i != k ==> s[i] != '-',
    ensures
        match (number(s.take(k)), number(s.skip(k + 1))) {
            (Ok(start), Ok(end)) => layer_range(s) == Ok::<(nat, nat), LayerRangeError>(
                (start, end),
            ),
            (Err(e), _) => layer_range(s) == Err::<(nat, nat), LayerRangeError>(
                LayerRangeError::Number(e),
            ),
            (Ok(_), Err(e)) => layer_range(s) == Err::<(nat, nat), LayerRangeError>(
                LayerRangeError::Number(e),
            ),
        },
{
    lemma_char_index_of(s, '-', k);
    let rest = s.skip(k + 1);
    assert forall|i: int| 0 <= i < rest.len() implies rest[i] != '-' by {
        assert(rest[i] == s[k + 1 + i]);
    }
    lemma_char_index_of(rest, '-', rest.len() as int);
    assert(split(rest, '-') == seq![rest]);
    assert(split(s, '-') == seq![s.take(k)] + seq![rest]);
}

/// A text without a dash, or with more than one, is no range of layers.
pub proof fn lemma_layer_range_needs_one_dash(s: Seq<char>)
    requires
        forall|i: int| #![trigger s[i]]
            0 <= i < s.len() && s[i] == '-' ==> exists|j: int|
                0 <= j < s.len() && j != i && #[trigger] s[j] == '-',
    ensures
        layer_range(s) == Err::<(nat, nat), LayerRangeError>(LayerRangeError::Format),
{
    lemma_char_index(s, '-');
    let k = char_index(s, '-') as int;
    if k < s.len() {
        let j = choose|j: int| 0 <= j < s.len() && j != k && #[trigger] s[j] == '-';
        let rest = s.skip(k + 1);
        lemma_char_index(rest, '-');
        assert(rest[j - k - 1] == '-');
        let m = char_index(rest, '-') as int;
        let tail = rest.skip(m + 1);
        assert(split(tail, '-').len() >= 1);
        assert(split(rest, '-') == seq![rest.take(m)] + split(tail, '-'));
        assert(split(s, '-') == seq![s.take(k)] + split(rest, '-'));
    }
}

/// The place that is found for a character is the first one.
proof fn lemma_char_index(s: Seq<char>, c: char)
    ensures
        char_index(s, c) <= s.len(),
        char_index(s, c) < s.len() ==> s[char_index(s, c) as int] == c,
        forall|i: int| 0 <= i < char_index(s, c) ==> s[i] != c,
    decreases s.len(),
{
    if s.len() > 0 && s[0] != c {
        let t = s.drop_first();
        lemma_char_index(t, c);
        assert forall|i: int| 0 <= i < char_index(s, c) implies s[i] != c by {
            if i > 0 {
                assert(s[i] == t[i - 1]);
            }
        }
    }
}

/// What a worker runs with.
#[derive(Debug, Clone, Copy, PartialEq, Eq, Structural)]
pub struct WorkerSettings {
    /// Port at which it listens.
    pub port: u16,
    /// First layer of its slice.
    pub start_layer: usize,
    /// Last layer of its slice.
    pub end_layer: usize,
}

/// Why a worker cannot start.
#[derive(Debug, Clone, Copy, PartialEq, Eq, Structural)]
pub enum SettingsError {
    MissingPort,
    MissingLayers,
    MissingModel,
    Layers(LayerRangeError),
}

impl SettingsError {
    pub open spec fn text(self) -> Seq<char> {
        match self {
            SettingsError::MissingPort => "Missing --port for worker mode"@,
            SettingsError::MissingLayers => "Missing --layers for worker mode"@,
            SettingsError::MissingModel => "Missing --model for worker mode"@,
            SettingsError::Layers(e) => e.text(),
        }
    }

    /// The error in words.
    pub fn message(&self) -> (r: String)
        ensures
            r@ == self.text(),
    {
        match self {
            SettingsError::MissingPort => "Missing --port for worker mode".to_owned(),
            SettingsError::MissingLayers => "Missing --layers for worker mode".to_owned(),
            SettingsError::MissingModel => "Missing --model for worker mode".to_owned(),
            SettingsError::Layers(e) => e.message(),
        }
    }
}

/// What the options of a worker amount to. The first thing that is missing or wrong is reported:
/// port, layers, model, and then the form of the layers.
pub open spec fn settings(port: Option<u16>, layers: Option<Seq<char>>, has_model: bool) -> Result<
    (u16, nat, nat),
    SettingsError,
> {
    if port is None {
        Err(SettingsError::MissingPort)
    } else if layers is None {
        Err(SettingsError::MissingLayers)
    } else if !has_model {
        Err(SettingsError::MissingModel)
    } else {
        match layer_range(layers->0) {
            Ok((start, end)) => Ok((port->0, start, end)),
            Err(e) => Err(SettingsError::Layers(e)),
        }
    }
}

/// A worker runs with the port that it is given and with the layers that it is given: where they
/// are written as the first and the last one in decimal with a dash between them, these two, in
/// that order.
pub proof fn lemma_settings_are_as_given(port: u16, start: nat, end: nat)
    requires
        start <= usize::MAX,
        end <= usize::MAX,
    ensures
        settings(Some(port), Some(decimal(start) + "-"@ + decimal(end)), true) == Ok::<
            (u16, nat, nat),
            SettingsError,
        >((port, start, end)),
{
    lemma_layer_range_round_trip(start, end);
}

/// A worker has settings exactly where it is given a port, a model and a range of layers, and these
/// are what it runs with. Otherwise it is told what is missing, first of all the port, next the
/// layers and next the model, or else what is wrong with the layers.
pub proof fn lemma_settings_need_all_options(
    port: Option<u16>,
    layers: Option<Seq<char>>,
    has_model: bool,
)
    ensures
        match settings(port, layers, has_model) {
            Ok((p, start, end)) => {
                &&& port == Some(p)
                &&& has_model
                &&& layers is Some
                &&& layer_range(layers->0) == Ok::<(nat, nat), LayerRangeError>((start, end))
            },
            Err(SettingsError::MissingPort) => port is None,
            Err(SettingsError::MissingLayers) => port is Some && layers is None,
            Err(SettingsError::MissingModel) => port is Some && layers is Some && !has_model,
            Err(SettingsError::Layers(e)) => {
                &&& port is Some
                &&& has_model
                &&& layers is Some
                &&& layer_range(layers->0) == Err::<(nat, nat), LayerRangeError>(e)
            },
        },
{
}

/// Works out the settings of a worker from its options.
pub fn worker_settings(port: Option<u16>, layers: Option<&str>, has_model: bool) -> (r: Result<
    WorkerSettings,
    SettingsError,
>)
    ensures
        ({
            let given = match layers {
                Some(text) => Some(text@),
                None => None,
            };
            match r {
                Ok(s) => {
                    &&& settings(port, given, has_model) == Ok::<(u16, nat, nat), SettingsError>(
                        (s.port, s.start_layer as nat, s.end_layer as nat),
                    )
                    &&& port == Some(s.port)
                    &&& given is Some
                    &&& layer_range(given->0) == Ok::<(nat, nat), LayerRangeError>(
                        (s.start_layer as nat, s.end_layer as nat),
                    )
                },
                Err(e) => settings(port, given, has_model) == Err::<(u16, nat, nat), SettingsError>(
                    e,
                ),
            }
        }),
{
    let port: u16 = match port {
        Some(port) => port,
        None => return Err(SettingsError::MissingPort),
    };
    let text = match layers {
        Some(text) => text,
        None => return Err(SettingsError::MissingLayers),
    };
    if !has_model {
        return Err(SettingsError::MissingModel);
    }
    match parse_layer_range(text) {
        Ok((start_layer, end_layer)) => Ok(WorkerSettings { port, start_layer, end_layer }),
        Err(e) => Err(SettingsError::Layers(e)),
    }
}

} // verus!
