//! Lists of audio devices.
use vstd::prelude::*;
use vstd::string::*;

verus! {

/// An audio endpoint.
#[derive(Debug)]
pub struct DeviceInfo {
    /// What the system knows it by.
    pub id: String,
    /// What the user knows it by.
    pub name: String,
    /// Whether it is the default of its direction.
    pub is_default: bool,
}

/// What a [`DeviceInfo`] says.
pub struct Endpoint {
    /// What the system knows it by.
    pub id: Seq<char>,
    /// What the user knows it by.
    pub name: Seq<char>,
    /// Whether it is the default of its direction.
    pub is_default: bool,
}

impl View for DeviceInfo {
    type V = Endpoint;

    open spec fn view(&self) -> Endpoint {
        Endpoint { id: self.id@, name: self.name@, is_default: self.is_default }
    }
}

impl Clone for DeviceInfo {
    fn clone(&self) -> (r: Self)
        ensures
            r@ == self@,
    {
        DeviceInfo {
            id: self.id.clone(),
            name: self.name.clone(),
            is_default: self.is_default,
        }
    }
}

/// The endpoints of both directions.
#[derive(Debug)]
pub struct DeviceLists {
    /// Inputs.
    pub capture: Vec<DeviceInfo>,
    /// Outputs.
    pub render: Vec<DeviceInfo>,
}

/// A list that says the same.
fn copied(list: &Vec<DeviceInfo>) -> (r: Vec<DeviceInfo>)
    ensures
        endpoints(r@) == endpoints(list@),
{
    let mut r: Vec<DeviceInfo> = Vec::new();
    let mut i: usize = 0;
    while i < list.len()
        invariant
            i <= list@.len(),
            r@.len() == i,
            forall|k: int| 0 <= k < i ==> (#[trigger] r@[k])@ == list@[k]@,
        decreases list@.len() - i,
    {
        r.push(list[i].clone());
        i = i + 1;
    }
    assert(endpoints(r@) =~= endpoints(list@));
    r
}

impl Clone for DeviceLists {
    fn clone(&self) -> (r: Self)
        ensures
            endpoints(r.capture@) == endpoints(self.capture@),
            endpoints(r.render@) == endpoints(self.render@),
    {
        DeviceLists { capture: copied(&self.capture), render: copied(&self.render) }
    }
}

impl Default for DeviceLists {
    fn default() -> (r: Self)
        ensures
            r.capture@.len() == 0,
            r.render@.len() == 0,
    {
        DeviceLists { capture: Vec::new(), render: Vec::new() }
    }
}

/// An endpoint as the system reports it.
pub struct RawDevice {
    /// What the system knows it by.
    pub id: String,
    /// What the user knows it by, where the system can say.
    pub name: Option<String>,
}

/// What is said of an endpoint, given which one is the default.
pub open spec fn described(default_id: Option<Seq<char>>, raw: RawDevice) -> Endpoint {
    Endpoint {
        id: raw.id@,
        name: match raw.name {
            Some(name) => name@,
            None => "（未知裝置）"@,
        },
        is_default: default_id == Some(raw.id@),
    }
}

/// What is said of all of them, in the same order.
pub open spec fn all_described(
    default_id: Option<Seq<char>>,
    raw: Seq<RawDevice>,
) -> Seq<Endpoint> {
    Seq::new(raw.len(), |i: int| described(default_id, raw[i]))
}

/// What a list of devices says.
pub open spec fn endpoints(list: Seq<DeviceInfo>) -> Seq<Endpoint> {
    Seq::new(list.len(), |i: int| list[i]@)
}

/// The entries that are, or are not, a default, in their order.
pub open spec fn those(list: Seq<Endpoint>, is_default: bool) -> Seq<Endpoint>
    decreases list.len(),
{
    if list.len() == 0 {
        Seq::empty()
    } else if list.last().is_default == is_default {
        those(list.drop_last(), is_default).push(list.last())
    } else {
        those(list.drop_last(), is_default)
    }
}

/// The defaults first, everything else behind them, each in its order.
pub open spec fn arranged(list: Seq<Endpoint>) -> Seq<Endpoint> {
    those(list, true) + those(list, false)
}

/// A name in the form that contracts speak of.
pub open spec fn named(name: Option<String>) -> Option<Seq<char>> {
    match name {
        None => None,
        Some(s) => Some(s@),
    }
}

/// The devices of one direction as they are listed: the default first.
pub fn list_devices(default_id: &Option<String>, raw: Vec<RawDevice>) -> (r: Vec<DeviceInfo>)
    ensures
        endpoints(r@) == arranged(all_described(named(*default_id), raw@)),
{
    let mut first: Vec<DeviceInfo> = Vec::new();
    let mut rest: Vec<DeviceInfo> = Vec::new();
    let ghost all = all_described(named(*default_id), raw@);
    assert(all.take(0) =~= Seq::<Endpoint>::empty());
    assert(endpoints(first@) =~= those(all.take(0), true));
    assert(endpoints(rest@) =~= those(all.take(0), false));
    let mut i: usize = 0;
    while i < raw.len()
        invariant
            i <= raw@.len(),
            all == all_described(named(*default_id), raw@),
            endpoints(first@) == those(all.take(i as int), true),
            endpoints(rest@) == those(all.take(i as int), false),
        decreases raw@.len() - i,
    {
        let is_default: bool = match default_id {
            None => false,
            Some(id) => *id == raw[i].id,
        };
        let name: String = match &raw[i].name {
            Some(name) => name.clone(),
            None => "（未知裝置）".to_owned(),
        };
        let device = DeviceInfo { id: raw[i].id.clone(), name, is_default };
        proof {
            assert(device@ == all[i as int]);
            assert(all.take(i + 1).drop_last() =~= all.take(i as int));
            assert(all.take(i + 1).last() == device@);
            assert(endpoints(first@.push(device)) =~= endpoints(first@).push(device@));
            assert(endpoints(rest@.push(device)) =~= endpoints(rest@).push(device@));
        }
        if is_default {
            first.push(device);
        } else {
            rest.push(device);
        }
        i = i + 1;
    }
    assert(all.take(raw@.len() as int) =~= all);
    let ghost a = first@;
    let ghost b = rest@;
    first.append(&mut rest);
    assert(endpoints(first@) =~= endpoints(a) + endpoints(b));
    first
}

/// A default is listed before everything that is none.
pub proof fn defaults_come_first(list: Seq<Endpoint>, i: int, j: int)
    requires
        0 <= i < j < arranged(list).len(),
        arranged(list)[j].is_default,
    ensures
        arranged(list)[i].is_default,
{
    those_are(list, true);
    those_are(list, false);
    let n = those(list, true).len();
    if j >= n {
        assert(arranged(list)[j] == those(list, false)[j - n]);
    }
}

/// The entries picked are of the kind asked for.
proof fn those_are(list: Seq<Endpoint>, is_default: bool)
    ensures
        forall|i: int|
            0 <= i < those(list, is_default).len() ==> (#[trigger] those(
                list,
                is_default,
            )[i]).is_default == is_default,
    decreases list.len(),
{
    if list.len() > 0 {
        those_are(list.drop_last(), is_default);
        let before = those(list.drop_last(), is_default);
        let now = those(list, is_default);
        assert forall|i: int| 0 <= i < now.len() implies (#[trigger] now[i]).is_default
            == is_default by {
            if i < before.len() {
                assert(now[i] == before[i]);
            }
        }
    }
}

/// Arranging loses nothing and adds nothing.
pub proof fn arranging_keeps_all(list: Seq<Endpoint>)
    ensures
        arranged(list).to_multiset() == list.to_multiset(),
    decreases list.len(),
{
    broadcast use vstd::seq_lib::group_to_multiset_ensures;

    vstd::seq_lib::lemma_multiset_commutative(those(list, true), those(list, false));
    if list.len() == 0 {
        assert(arranged(list) =~= list);
    } else {
        let front = list.drop_last();
        let d = list.last();
        arranging_keeps_all(front);
        vstd::seq_lib::lemma_multiset_commutative(those(front, true), those(front, false));
        assert(list =~= front.push(d));
        assert(list.to_multiset() =~= front.to_multiset().insert(d));
        if d.is_default {
            assert(those(list, true).to_multiset() =~= those(front, true).to_multiset().insert(d));
        } else {
            assert(those(list, false).to_multiset() =~= those(front, false).to_multiset().insert(
                d,
            ));
        }
        assert(arranged(list).to_multiset() =~= list.to_multiset());
    }
}

/// A list without a default stays as it is.
pub proof fn arranging_without_default_changes_nothing(list: Seq<Endpoint>)
    requires
        forall|i: int| 0 <= i < list.len() ==> !(#[trigger] list[i]).is_default,
    ensures
        arranged(list) == list,
    decreases list.len(),
{
    if list.len() > 0 {
        let front = list.drop_last();
        assert forall|i: int| 0 <= i < front.len() implies !(#[trigger] front[i]).is_default by {
            assert(front[i] == list[i]);
        }
        arranging_without_default_changes_nothing(front);
        assert(those(front, true) + those(front, false) == front);
        no_defaults(front);
        assert(those(list, true) =~= Seq::<Endpoint>::empty());
        assert(those(front, false) =~= front);
        assert(those(list, false) =~= list);
    }
    assert(arranged(list) =~= list);
}

/// Where there is no default, none is picked.
proof fn no_defaults(list: Seq<Endpoint>)
    requires
        forall|i: int| 0 <= i < list.len() ==> !(#[trigger] list[i]).is_default,
    ensures
        those(list, true).len() == 0,
    decreases list.len(),
{
    if list.len() > 0 {
        let front = list.drop_last();
        assert forall|i: int| 0 <= i < front.len() implies !(#[trigger] front[i]).is_default by {
            assert(front[i] == list[i]);
        }
        no_defaults(front);
    }
}

/// What stands in the list for a device: its name, marked if it is the default.
pub open spec fn entry_is(device: Endpoint) -> Seq<char> {
    if device.is_default {
        device.name + "（預設）"@
    } else {
        device.name
    }
}

/// What stands in the list for a device.
pub fn entry(device: &DeviceInfo) -> (r: String)
    ensures
        r@ == entry_is(device@),
{
    if device.is_default {
        device.name.clone().concat("（預設）")
    } else {
        device.name.clone()
    }
}

/// The place of the first device in a list with a given identity.
pub open spec fn first_with_id(list: Seq<DeviceInfo>, id: Seq<char>, i: int) -> bool {
    &&& 0 <= i < list.len()
    &&& list[i].id@ == id
    &&& forall|k: int| 0 <= k < i ==> (#[trigger] list[k]).id@ != id
}

/// The place of the first device with a given identity, if there is one.
fn place_of(list: &Vec<DeviceInfo>, id: &String) -> (r: Option<usize>)
    ensures
        match r {
            Some(i) => first_with_id(list@, id@, i as int),
            None => forall|i: int| !first_with_id(list@, id@, i),
        },
{
    let mut i: usize = 0;
    while i < list.len()
        invariant
            i <= list@.len(),
            forall|k: int| 0 <= k < i ==> (#[trigger] list@[k]).id@ != id@,
        decreases list@.len() - i,
    {
        if list[i].id == *id {
            return Some(i);
        }
        i = i + 1;
    }
    None
}

/// `r` is what is shown for a selection.
pub open spec fn label_is(list: Seq<DeviceInfo>, sel: Option<Seq<char>>, r: Seq<char>) -> bool {
    match sel {
        None => r == "系統預設"@,
        Some(id) => if exists|i: int| first_with_id(list, id, i) {
            exists|i: int| #[trigger] first_with_id(list, id, i) && r == list[i].name@
        } else {
            r == "（裝置已移除）"@
        },
    }
}

/// What is shown for a selection: the name of the device, a note if it is gone, or
/// that the default is used.
pub fn device_label(list: &Vec<DeviceInfo>, sel: &Option<String>) -> (r: String)
    ensures
        label_is(list@, named(*sel), r@),
{
    match sel {
        None => "系統預設".to_owned(),
        Some(id) => match place_of(list, id) {
            None => "（裝置已移除）".to_owned(),
            Some(i) => {
                let name = list[i].name.clone();
                assert(first_with_id(list@, id@, i as int) && name@ == list@[i as int].name@);
                name
            },
        },
    }
}

/// A device is marked as the default exactly where its identity is that of the default one,
/// and keeps its place, identity and name.
pub proof fn the_default_is_marked(default_id: Option<Seq<char>>, raw: Seq<RawDevice>, i: int, j: int)
    requires
        0 <= i < raw.len(),
        0 <= j < raw.len(),
    ensures
        ({
            let list = all_described(default_id, raw);
            &&& list.len() == raw.len()
            &&& list[i].id == raw[i].id@
            &&& raw[i].name is Some ==> list[i].name == raw[i].name->0@
            &&& list[i].is_default && list[j].is_default ==> raw[i].id@ == raw[j].id@
            &&& default_id is None ==> !list[i].is_default
            &&& default_id == Some(raw[i].id@) ==> list[i].is_default
        }),
{
}

/// A selection is shown by the name of its device, where there is one of that identity.
pub proof fn labels_name_the_device(
    list: Seq<DeviceInfo>,
    sel: Option<Seq<char>>,
    i: int,
    r: Seq<char>,
)
    requires
        label_is(list, sel, r),
        0 <= i < list.len(),
        sel == Some(list[i].id@),
        forall|k: int| 0 <= k < list.len() && k != i ==> (#[trigger] list[k]).id@ != list[i].id@,
    ensures
        r == list[i].name@,
{
    let id = list[i].id@;
    assert(first_with_id(list, id, i)) by {
        assert forall|k: int| 0 <= k < i implies (#[trigger] list[k]).id@ != id by {
            assert(list[k].id@ != list[i].id@);
        }
    }
    assert(sel->0 == id);
    let k = choose|k: int| #[trigger] first_with_id(list, id, k) && r == list[k].name@;
    assert(k == i) by {
        if k != i {
            assert(list[k].id@ == id);
        }
    }
}

} // verus!
