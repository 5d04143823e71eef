//! Codec options, and the encoding options a field's JSON annotations give.
use vstd::prelude::*;
use crate::error::{Error, ErrorModel, ErrorOf};

verus! {

/// Encoding and decoding options for a codec.
#[derive(Debug, Clone, PartialEq, Eq)]
pub struct CodecOptions {
    /// How deeply decoding will recurse before giving up. Defaults to 64,
    /// matching the C++ codec's `maxNestingDepth`. A limit of `N` admits `N`
    /// nested arrays or objects; scalars do not count against it.
    pub recursion_limit: usize,
}

impl Default for CodecOptions {
    fn default() -> (r: Self)
        ensures
            r.recursion_limit == 64,
    {
        Self { recursion_limit: 64 }
    }
}

/// How a `Data` value is written.
#[derive(Debug, Clone, Copy, PartialEq, Eq, Structural)]
pub enum DataEncoding {
    /// An array of byte-valued numbers.
    Default,
    /// A Base64 string (`$Json.base64`).
    Base64,
    /// A hex string (`$Json.hex`).
    Hex,
}

/// The options of `$Json.flatten`: the prefix put before each member's name.
#[derive(Debug, Clone)]
pub struct FlattenOptions {
    pub prefix: String,
}

/// The options of `$Json.discriminator`: the name of the sibling field that
/// names the active member, and the name under which its value is written.
#[derive(Debug, Clone)]
pub struct DiscriminatorOptions {
    pub name: Option<String>,
    pub value_name: Option<String>,
}

/// One annotation on a field, as far as the JSON codec reads it.
#[derive(Debug, Clone)]
pub enum Annotation {
    /// `$Rust.codec("name")`: the named custom codec.
    Codec(String),
    /// `$Json.name("name")`.
    Name(String),
    /// `$Json.base64`.
    Base64,
    /// `$Json.hex`.
    Hex,
    /// `$Json.flatten(..)`.
    Flatten(FlattenOptions),
    /// `$Json.discriminator(..)`.
    Discriminator(DiscriminatorOptions),
    /// Any annotation the codec does not read.
    Other,
}

/// The view of an optional string.
pub open spec fn opt_view(o: Option<String>) -> Option<Seq<char>> {
    match o {
        Some(s) => Some(s@),
        None => None,
    }
}

/// The view of discriminator options: `(name, value name)`.
pub open spec fn discriminator_view(d: DiscriminatorOptions) -> (Option<Seq<char>>, Option<Seq<char>>) {
    (opt_view(d.name), opt_view(d.value_name))
}

/// The mathematical view of an [`Annotation`].
pub enum AnnotationModel {
    Codec(Seq<char>),
    Name(Seq<char>),
    Base64,
    Hex,
    Flatten(Seq<char>),
    Discriminator(Option<Seq<char>>, Option<Seq<char>>),
    Other,
}

impl View for Annotation {
    type V = AnnotationModel;

    open spec fn view(&self) -> AnnotationModel {
        match self {
            Annotation::Codec(s) => AnnotationModel::Codec(s@),
            Annotation::Name(s) => AnnotationModel::Name(s@),
            Annotation::Base64 => AnnotationModel::Base64,
            Annotation::Hex => AnnotationModel::Hex,
            Annotation::Flatten(f) => AnnotationModel::Flatten(f.prefix@),
            Annotation::Discriminator(d) => AnnotationModel::Discriminator(
                opt_view(d.name),
                opt_view(d.value_name),
            ),
            Annotation::Other => AnnotationModel::Other,
        }
    }
}

/// How one value is to be encoded: what its enclosing object's annotations and
/// its own field's annotations say.
#[derive(Debug, Clone)]
pub struct EncodingOptions {
    /// The prefix of the enclosing flattened objects' member names.
    pub prefix: String,
    /// The value's name in JSON: the field's `$Json.name`, else its name.
    pub name: String,
    /// `$Json.flatten`, if the field carries it.
    pub flatten: Option<FlattenOptions>,
    /// `$Json.discriminator`, if the field carries it.
    pub discriminator: Option<DiscriminatorOptions>,
    /// How `Data` in the value is written.
    pub data_encoding: DataEncoding,
    /// The `$Rust.codec` name, if the field carries one.
    pub codec: Option<String>,
}

/// The mathematical view of [`EncodingOptions`].
pub struct OptionsModel {
    pub prefix: Seq<char>,
    pub name: Seq<char>,
    pub flatten: Option<Seq<char>>,
    pub discriminator: Option<(Option<Seq<char>>, Option<Seq<char>>)>,
    pub data_encoding: DataEncoding,
    pub codec: Option<Seq<char>>,
}

impl View for EncodingOptions {
    type V = OptionsModel;

    open spec fn view(&self) -> OptionsModel {
        OptionsModel {
            prefix: self.prefix@,
            name: self.name@,
            flatten: match self.flatten {
                Some(f) => Some(f.prefix@),
                None => None,
            },
            discriminator: match self.discriminator {
                Some(d) => Some(discriminator_view(d)),
                None => None,
            },
            data_encoding: self.data_encoding,
            codec: opt_view(self.codec),
        }
    }
}

/// The options of a value reached through no field: the root of a message,
/// and the elements of a custom codec's arrays and objects.
pub open spec fn default_options() -> OptionsModel {
    OptionsModel {
        prefix: Seq::empty(),
        name: Seq::empty(),
        flatten: None,
        discriminator: None,
        data_encoding: DataEncoding::Default,
        codec: None,
    }
}

/// The text of the last `$Json.name` among `anns`.
pub open spec fn last_name(anns: Seq<AnnotationModel>) -> Option<Seq<char>>
    decreases anns.len(),
{
    if anns.len() == 0 {
        None
    } else {
        match anns.last() {
            AnnotationModel::Name(n) => Some(n),
            _ => last_name(anns.drop_last()),
        }
    }
}

/// The name of the last `$Rust.codec` among `anns`.
pub open spec fn last_codec(anns: Seq<AnnotationModel>) -> Option<Seq<char>>
    decreases anns.len(),
{
    if anns.len() == 0 {
        None
    } else {
        match anns.last() {
            AnnotationModel::Codec(n) => Some(n),
            _ => last_codec(anns.drop_last()),
        }
    }
}

/// The prefix of the last `$Json.flatten` among `anns`.
pub open spec fn last_flatten(anns: Seq<AnnotationModel>) -> Option<Seq<char>>
    decreases anns.len(),
{
    if anns.len() == 0 {
        None
    } else {
        match anns.last() {
            AnnotationModel::Flatten(p) => Some(p),
            _ => last_flatten(anns.drop_last()),
        }
    }
}

/// The options of the last `$Json.discriminator` among `anns`.
pub open spec fn last_discriminator(anns: Seq<AnnotationModel>) -> Option<
    (Option<Seq<char>>, Option<Seq<char>>),
>
    decreases anns.len(),
{
    if anns.len() == 0 {
        None
    } else {
        match anns.last() {
            AnnotationModel::Discriminator(n, v) => Some((n, v)),
            _ => last_discriminator(anns.drop_last()),
        }
    }
}

/// How many of `anns` are `$Json.base64` or `$Json.hex`.
pub open spec fn encoding_count(anns: Seq<AnnotationModel>) -> nat
    decreases anns.len(),
{
    if anns.len() == 0 {
        0
    } else {
        encoding_count(anns.drop_last()) + match anns.last() {
            AnnotationModel::Base64 => 1nat,
            AnnotationModel::Hex => 1nat,
            _ => 0nat,
        }
    }
}

/// The data encoding that the last `$Json.base64` or `$Json.hex` among `anns`
/// asks for, `Default` where there is none.
pub open spec fn last_encoding(anns: Seq<AnnotationModel>) -> DataEncoding
    decreases anns.len(),
{
    if anns.len() == 0 {
        DataEncoding::Default
    } else {
        match anns.last() {
            AnnotationModel::Base64 => DataEncoding::Base64,
            AnnotationModel::Hex => DataEncoding::Hex,
            _ => last_encoding(anns.drop_last()),
        }
    }
}

/// The options that a field named `proto_name`, with annotations `anns`,
/// gives inside an object whose member names carry `prefix`; an error where
/// the annotations contradict each other or the field's type.
///
/// `element_is_data` says whether the field's type, looking through any
/// number of `List(..)`, is `Data`.
pub open spec fn field_options(
    prefix: Seq<char>,
    proto_name: Seq<char>,
    anns: Seq<AnnotationModel>,
    element_is_data: bool,
) -> Result<OptionsModel, ErrorModel> {
    if encoding_count(anns) >= 2 {
        Err(ErrorOf::ConflictingDataEncodings)
    } else if encoding_count(anns) == 1 && !element_is_data {
        Err(ErrorOf::DataEncodingOnNonData)
    } else {
        Ok(
            OptionsModel {
                prefix,
                name: match last_name(anns) {
                    Some(n) => n,
                    None => proto_name,
                },
                flatten: last_flatten(anns),
                discriminator: last_discriminator(anns),
                data_encoding: last_encoding(anns),
                codec: last_codec(anns),
            },
        )
    }
}

/// The views of a sequence of annotations.
pub open spec fn annotations_view(anns: Seq<Annotation>) -> Seq<AnnotationModel> {
    anns.map_values(|a: Annotation| a@)
}

fn clone_opt(o: &Option<String>) -> (r: Option<String>)
    ensures
        opt_view(r) == opt_view(*o),
{
    match o {
        Some(s) => Some(s.clone()),
        None => None,
    }
}

impl Default for EncodingOptions {
    /// The options of a value reached through no field: no prefix, no
    /// name, no annotations.
    fn default() -> (r: Self)
        ensures
            r@ == default_options(),
    {
        let r = EncodingOptions {
            prefix: String::new(),
            name: String::new(),
            flatten: None,
            discriminator: None,
            data_encoding: DataEncoding::Default,
            codec: None,
        };
        assert(r@.prefix =~= Seq::<char>::empty());
        assert(r@.name =~= Seq::<char>::empty());
        r
    }
}

impl EncodingOptions {
    /// Reads a field's JSON annotations, in order: the last `$Json.name`,
    /// `$Json.flatten`, `$Json.discriminator` and `$Rust.codec` win; two data
    /// encodings on one field are an error, as is one on a field whose type
    /// (looking through lists) is not `Data`.
    pub fn from_field(
        prefix: &str,
        proto_name: &str,
        annotations: &Vec<Annotation>,
        element_is_data: bool,
    ) -> (r: Result<Self, Error>)
        ensures
            match (r, field_options(prefix@, proto_name@, annotations_view(annotations@), element_is_data)) {
                (Ok(o), Ok(m)) => o@ == m,
                (Err(e), Err(m)) => e@ == m,
                _ => false,
            },
    {
        let ghost anns = annotations_view(annotations@);
        let mut name: String = proto_name.to_owned();
        let mut flatten: Option<FlattenOptions> = None;
        let mut discriminator: Option<DiscriminatorOptions> = None;
        let mut data_encoding = DataEncoding::Default;
        let mut codec: Option<String> = None;
        let mut i: usize = 0;
        while i < annotations.len()
            invariant
                i <= annotations.len(),
                anns == annotations_view(annotations@),
                anns.len() == annotations.len(),
                name@ == match last_name(anns.take(i as int)) {
                    Some(n) => n,
                    None => proto_name@,
                },
                match flatten {
                    Some(f) => last_flatten(anns.take(i as int)) == Some(f.prefix@),
                    None => last_flatten(anns.take(i as int)) is None,
                },
                match discriminator {
                    Some(d) => last_discriminator(anns.take(i as int)) == Some(discriminator_view(d)),
                    None => last_discriminator(anns.take(i as int)) is None,
                },
                opt_view(codec) == last_codec(anns.take(i as int)),
                data_encoding == last_encoding(anns.take(i as int)),
                encoding_count(anns.take(i as int)) <= 1,
                (data_encoding == DataEncoding::Default) == (encoding_count(anns.take(i as int)) == 0),
            decreases annotations.len() - i,
        {
            let ghost t = anns.take(i + 1);
            assert(t.drop_last() =~= anns.take(i as int));
            assert(t.last() == annotations@[i as int]@);
            match &annotations[i] {
                Annotation::Codec(c) => {
                    codec = Some(c.clone());
                },
                Annotation::Name(n) => {
                    name = n.clone();
                },
                Annotation::Base64 => {
                    if data_encoding != DataEncoding::Default {
                        proof {
                            lemma_encoding_count_monotone(anns, anns.len() as int);
                            assert(anns.take(anns.len() as int) =~= anns);
                            assert(encoding_count(anns.take(i + 1)) == 2);
                        }
                        return Err(ErrorOf::ConflictingDataEncodings);
                    }
                    data_encoding = DataEncoding::Base64;
                },
                Annotation::Hex => {
                    if data_encoding != DataEncoding::Default {
                        proof {
                            lemma_encoding_count_monotone(anns, anns.len() as int);
                            assert(anns.take(anns.len() as int) =~= anns);
                            assert(encoding_count(anns.take(i + 1)) == 2);
                        }
                        return Err(ErrorOf::ConflictingDataEncodings);
                    }
                    data_encoding = DataEncoding::Hex;
                },
                Annotation::Flatten(f) => {
                    flatten = Some(FlattenOptions { prefix: f.prefix.clone() });
                },
                Annotation::Discriminator(d) => {
                    discriminator = Some(
                        DiscriminatorOptions {
                            name: clone_opt(&d.name),
                            value_name: clone_opt(&d.value_name),
                        },
                    );
                },
                Annotation::Other => {},
            }
            i = i + 1;
        }
        assert(anns.take(i as int) =~= anns);
        if data_encoding != DataEncoding::Default && !element_is_data {
            return Err(ErrorOf::DataEncodingOnNonData);
        }
        Ok(
            EncodingOptions {
                prefix: prefix.to_owned(),
                name,
                flatten,
                discriminator,
                data_encoding,
                codec,
            },
        )
    }
}

/// Counting data encodings over a longer prefix never gives less.
proof fn lemma_encoding_count_monotone(anns: Seq<AnnotationModel>, n: int)
    requires
        0 <= n <= anns.len(),
    ensures
        forall|m: int| 0 <= m <= n ==> encoding_count(#[trigger] anns.take(m)) <= encoding_count(anns.take(n)),
    decreases n,
{
    if n > 0 {
        lemma_encoding_count_monotone(anns, n - 1);
        assert(anns.take(n).drop_last() =~= anns.take(n - 1));
    }
}

/// Which custom codec applies to a struct field.
#[derive(Debug, Clone, Copy, PartialEq, Eq, Structural)]
pub enum CodecChoice {
    /// The one registered under the field's `$Rust.codec` name.
    Named,
    /// The one registered for the field.
    FieldOverride,
    /// The one registered for the field's type.
    TypeOverride,
    /// None: the default encoding.
    Default,
}

/// The rule for which codec wins: a registered `$Rust.codec` name on the
/// field, then an override for the field, then one for its type.
pub open spec fn codec_choice(named_registered: bool, field_override: bool, type_override: bool) -> CodecChoice {
    if named_registered {
        CodecChoice::Named
    } else if field_override {
        CodecChoice::FieldOverride
    } else if type_override {
        CodecChoice::TypeOverride
    } else {
        CodecChoice::Default
    }
}

/// Which codec wins: a registered `$Rust.codec` name on the field is
/// chosen whatever overrides exist; an override for the field only where no
/// registered name applies; an override for the field's type only where
/// neither applies; and the default encoding only where none does.
pub proof fn codec_precedence(named_registered: bool, field_override: bool, type_override: bool)
    ensures
        (codec_choice(named_registered, field_override, type_override) == CodecChoice::Named) == named_registered,
        (codec_choice(named_registered, field_override, type_override) == CodecChoice::FieldOverride) == (
        !named_registered && field_override),
        (codec_choice(named_registered, field_override, type_override) == CodecChoice::TypeOverride) == (
        !named_registered && !field_override && type_override),
        (codec_choice(named_registered, field_override, type_override) == CodecChoice::Default) == (
        !named_registered && !field_override && !type_override),
{
}

/// Applies the rule for which codec wins.
pub fn choose_codec(named_registered: bool, field_override: bool, type_override: bool) -> (c: CodecChoice)
    ensures
        c == codec_choice(named_registered, field_override, type_override),
        (c == CodecChoice::Named) == named_registered,
        (c == CodecChoice::FieldOverride) == (!named_registered && field_override),
        (c == CodecChoice::TypeOverride) == (!named_registered && !field_override && type_override),
        (c == CodecChoice::Default) == (!named_registered && !field_override && !type_override),
{
    if named_registered {
        CodecChoice::Named
    } else if field_override {
        CodecChoice::FieldOverride
    } else if type_override {
        CodecChoice::TypeOverride
    } else {
        CodecChoice::Default
    }
}

/// The views of a sequence of names.
pub open spec fn names_view(names: Seq<String>) -> Seq<Seq<char>> {
    names.map_values(|s: String| s@)
}

/// Whether `name` is among `names`.
pub fn is_registered(names: &Vec<String>, name: &String) -> (r: bool)
    ensures
        r == names_view(names@).contains(name@),
{
    let mut i: usize = 0;
    while i < names.len()
        invariant
            i <= names.len(),
            forall|k: int| 0 <= k < i ==> names@[k]@ != name@,
        decreases names.len() - i,
    {
        if names[i] == *name {
            assert(names_view(names@)[i as int] == name@);
            return true;
        }
        i = i + 1;
    }
    proof {
        if names_view(names@).contains(name@) {
            let k = choose|k: int| 0 <= k < names_view(names@).len() && names_view(names@)[k] == name@;
            assert(names@[k]@ == name@);
        }
    }
    false
}

} // verus!
