//! The descriptor format, read with the `ini` crate.
use vstd::prelude::*;

verus! {

#[verifier::external_type_specification]
#[verifier::external_body]
pub struct ExIni(ini::Ini);

#[verifier::external_type_specification]
#[verifier::external_body]
pub struct ExProperties(ini::Properties);

#[verifier::external_type_specification]
#[verifier::external_body]
pub struct ExParseError(ini::ParseError);

/// The named sections of a parsed document: each section name maps to the keys
/// of the first section of that name, and each key to its first value.
pub uninterp spec fn ini_sections(c: ini::Ini) -> Map<Seq<char>, Map<Seq<char>, Seq<char>>>;

/// The keys of one section, each with its first value.
pub uninterp spec fn property_values(p: ini::Properties) -> Map<Seq<char>, Seq<char>>;

/// The named sections that parsing a text yields, or `None` where it does not parse.
pub uninterp spec fn ini_parsed(text: Seq<char>) -> Option<Map<Seq<char>, Map<Seq<char>, Seq<char>>>>;

/// Relies on `ini::Ini::load_from_str`: whether it parses, and what, depends on the text alone.
#[verifier::external_body]
pub(crate) fn parse_ini(text: &str) -> (r: Result<ini::Ini, ini::ParseError>)
    ensures
        r is Ok <==> ini_parsed(text@) is Some,
        r matches Ok(c) ==> ini_parsed(text@) == Some(ini_sections(c)),
{
    ini::Ini::load_from_str(text)
}

/// A document without any section.
pub open spec fn no_sections() -> Map<Seq<char>, Map<Seq<char>, Seq<char>>> {
    Map::empty()
}

/// Relies on `ini::Ini::new`: a document whose only section is the unnamed one.
#[verifier::external_body]
pub(crate) fn empty_ini() -> (r: ini::Ini)
    ensures
        ini_sections(r) == no_sections(),
{
    ini::Ini::new()
}

/// Relies on `ini::Ini::section`: the first section of the given name, if any.
#[verifier::external_body]
pub(crate) fn section_of<'a>(c: &'a ini::Ini, name: &str) -> (r: Option<&'a ini::Properties>)
    ensures
        r is Some <==> ini_sections(*c).contains_key(name@),
        r matches Some(p) ==> property_values(*p) == ini_sections(*c)[name@],
{
    c.section(Some(name))
}

/// Relies on `ini::Properties::get`: the first value of the given key, if any.
#[verifier::external_body]
pub(crate) fn property_of(p: &ini::Properties, key: &str) -> (r: Option<String>)
    ensures
        r is Some <==> property_values(*p).contains_key(key@),
        r matches Some(v) ==> v@ == property_values(*p)[key@],
{
    p.get(key).map(String::from)
}

/// Relies on the derived `Clone` of `ini::Ini`: the copy holds the same sections.
pub assume_specification[ <ini::Ini as Clone>::clone ](c: &ini::Ini) -> (r: ini::Ini)
    ensures
        ini_sections(r) == ini_sections(*c),
;

/// The value of `key` in the section `section`, if both are there.
pub open spec fn lookup_in(
    sections: Map<Seq<char>, Map<Seq<char>, Seq<char>>>,
    section: Seq<char>,
    key: Seq<char>,
) -> Option<Seq<char>> {
    if sections.contains_key(section) && sections[section].contains_key(key) {
        Some(sections[section][key])
    } else {
        None
    }
}

/// Looks a key up in a section of a parsed document.
pub fn ini_value(c: &ini::Ini, section: &str, key: &str) -> (r: Option<String>)
    ensures
        r matches Some(v) ==> lookup_in(ini_sections(*c), section@, key@) == Some(v@),
        r is None ==> lookup_in(ini_sections(*c), section@, key@) is None,
{
    match section_of(c, section) {
        Some(p) => property_of(p, key),
        None => None,
    }
}

} // verus!
