//! The parameters of a plugin that are shown.
//!
//! Values are the bit patterns of floating-point numbers; they are only carried
//! through.

use vstd::prelude::*;
use vstd::utf8::{decode_utf8, valid_utf8};

verus! {

/// What a plugin tells of a parameter.
#[derive(Debug)]
pub struct ParamInfo {
    pub id: u32,
    /// The name, in bytes that are meant to be UTF-8.
    pub name: Vec<u8>,
    pub min: u64,
    pub max: u64,
    pub default: u64,
    pub is_hidden: bool,
    pub is_stepped: bool,
    /// The present value, if the plugin tells it.
    pub value: Option<u64>,
}

/// A parameter that is shown.
#[derive(Debug)]
pub struct ParamEntry {
    pub id: u32,
    pub name: String,
    pub min: u64,
    pub max: u64,
    /// The present value, or else the default one.
    pub value: u64,
    pub is_stepped: bool,
}

/// What is said of a [`ParamEntry`].
#[verifier::ext_equal]
pub struct EntryView {
    pub id: u32,
    pub name: Seq<char>,
    pub min: u64,
    pub max: u64,
    pub value: u64,
    pub is_stepped: bool,
}

impl View for ParamEntry {
    type V = EntryView;

    open spec fn view(&self) -> EntryView {
        EntryView {
            id: self.id,
            name: self.name@,
            min: self.min,
            max: self.max,
            value: self.value,
            is_stepped: self.is_stepped,
        }
    }
}

/// The text that bytes are read as where what is not UTF-8 in them is replaced.
pub uninterp spec fn lossy_utf8(bytes: Seq<u8>) -> Seq<char>;

/// Reads bytes as UTF-8, with a replacement for what is not: calls
/// [`String::from_utf8_lossy`].
///
/// Claimed of it: what it gives depends on the bytes alone, and is the text that
/// they encode where they are well-formed.
#[verifier::external_body]
fn lossy_text(bytes: &[u8]) -> (text: String)
    ensures
        text@ == lossy_utf8(bytes@),
        valid_utf8(bytes@) ==> text@ == decode_utf8(bytes@),
{
    String::from_utf8_lossy(bytes).into_owned()
}

/// What is shown of a parameter whose name reads as `name`.
pub open spec fn entry_of(info: ParamInfo, name: Seq<char>) -> EntryView {
    EntryView {
        id: info.id,
        name,
        min: info.min,
        max: info.max,
        value: match info.value {
            Some(value) => value,
            None => info.default,
        },
        is_stepped: info.is_stepped,
    }
}

/// What is shown of parameters: those that the plugin tells of and does not hide,
/// in their order.
pub open spec fn entries_of(infos: Seq<Option<ParamInfo>>) -> Seq<EntryView>
    decreases infos.len(),
{
    if infos.len() == 0 {
        Seq::empty()
    } else {
        let before = entries_of(infos.drop_last());
        match infos.last() {
            Some(info) => if info.is_hidden {
                before
            } else {
                before.push(entry_of(info, lossy_utf8(info.name@)))
            },
            None => before,
        }
    }
}

/// The entry of a parameter whose name reads as `name`.
pub fn entry(info: &ParamInfo, name: String) -> (entry: ParamEntry)
    ensures
        entry@ == entry_of(*info, name@),
{
    let value: u64 = match info.value {
        Some(value) => value,
        None => info.default,
    };
    ParamEntry {
        id: info.id,
        name,
        min: info.min,
        max: info.max,
        value,
        is_stepped: info.is_stepped,
    }
}

/// Lists the parameters that are shown. The plugin may tell nothing of one.
pub fn read_params(infos: &Vec<Option<ParamInfo>>) -> (entries: Vec<ParamEntry>)
    ensures
        entries@.map_values(|e: ParamEntry| e@) =~= entries_of(infos@),
{
    let mut entries: Vec<ParamEntry> = Vec::new();
    let count: usize = infos.len();
    let mut at: usize = 0;
    while at < count
        invariant
            count == infos@.len(),
            at <= count,
            entries@.map_values(|e: ParamEntry| e@) =~= entries_of(infos@.take(at as int)),
        decreases count - at,
    {
        assert(infos@.take(at + 1).drop_last() =~= infos@.take(at as int));
        match &infos[at] {
            Some(info) => {
                if !info.is_hidden {
                    let name: String = lossy_text(info.name.as_slice());
                    entries.push(entry(info, name));
                }
            },
            None => {},
        }
        at += 1;
    }
    assert(infos@.take(count as int) =~= infos@);
    entries
}

/// A parameter is shown with its id, its range and whether it has steps, and with
/// its present value, or the default one where the plugin tells none.
pub proof fn a_parameter_is_shown_as_it_is(info: ParamInfo, name: Seq<char>, entry: ParamEntry)
    requires
        entry@ == entry_of(info, name),
    ensures
        entry.id == info.id,
        entry.name@ == name,
        entry.min == info.min,
        entry.max == info.max,
        entry.is_stepped == info.is_stepped,
        info.value is Some ==> entry.value == info.value->0,
        info.value is None ==> entry.value == info.default,
{
}

/// The parameters that the plugin tells of and does not hide are shown, and no
/// others, in their order. Their places are returned.
pub proof fn hidden_parameters_are_left_out(infos: Seq<Option<ParamInfo>>) -> (places: Seq<int>)
    ensures
        places.len() == entries_of(infos).len(),
        forall|k: int|
            0 <= k < places.len() ==> 0 <= #[trigger] places[k] < infos.len() && (
            infos[places[k]] matches Some(info) && entries_of(infos)[k] == entry_of(
                info,
                lossy_utf8(info.name@),
            )),
        forall|k: int, l: int|
            #![trigger places[k], places[l]]
            0 <= k < l < places.len() ==> places[k] < places[l],
        forall|i: int|
            0 <= i < infos.len() ==> ((infos[i] matches Some(info) && !info.is_hidden)
                <==> #[trigger] places.contains(i)),
    decreases infos.len(),
{
    if infos.len() == 0 {
        Seq::empty()
    } else {
        let last = infos.len() - 1;
        let before = hidden_parameters_are_left_out(infos.drop_last());
        if infos[last] matches Some(info) && !info.is_hidden {
            let places = before.push(last);
            assert forall|i: int| 0 <= i < infos.len() implies ((infos[i] matches Some(info)
                && !info.is_hidden) <==> #[trigger] places.contains(i)) by {
                if i == last {
                    assert(places[before.len() as int] == i);
                } else {
                    assert(infos.drop_last()[i] == infos[i]);
                    if before.contains(i) {
                        let k = choose|k: int| 0 <= k < before.len() && before[k] == i;
                        assert(places[k] == i);
                    }
                    if places.contains(i) {
                        let k = choose|k: int| 0 <= k < places.len() && places[k] == i;
                        assert(before[k] == i);
                    }
                }
            }
            places
        } else {
            assert forall|i: int| 0 <= i < infos.len() implies ((infos[i] matches Some(info)
                && !info.is_hidden) <==> #[trigger] before.contains(i)) by {
                if i == last {
                    if before.contains(i) {
                        let k = choose|k: int| 0 <= k < before.len() && before[k] == i;
                        assert(before[k] < last);
                    }
                } else {
                    assert(infos.drop_last()[i] == infos[i]);
                }
            }
            before
        }
    }
}

} // verus!
