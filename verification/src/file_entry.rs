//! A row of a file list, as the widgets of a panel hold it.

use vstd::prelude::*;
use vstd::string::*;

use crate::text::same_text;

verus! {

/// The value that stands for permissions which are not known.
pub const NO_PERMISSIONS: u32 = u32::MAX;

/// A property of a row.
#[derive(Clone, Copy, Debug, PartialEq, Eq, Structural)]
pub enum Property {
    Name,
    Path,
    IsDir,
    Size,
    Date,
    Permissions,
}

impl Property {
    /// The name of the property.
    pub open spec fn text(self) -> Seq<char> {
        match self {
            Property::Name => "name"@,
            Property::Path => "path"@,
            Property::IsDir => "is-dir"@,
            Property::Size => "size"@,
            Property::Date => "date"@,
            Property::Permissions => "permissions"@,
        }
    }

    /// The property of that name, if there is one.
    pub fn named(name: &str) -> (property: Option<Property>)
        ensures
            match property {
                Some(p) => p.text() == name@,
                None => forall|p: Property| #[trigger] p.text() != name@,
            },
    {
        if same_text(name, "name") {
            Some(Property::Name)
        } else if same_text(name, "path") {
            Some(Property::Path)
        } else if same_text(name, "is-dir") {
            Some(Property::IsDir)
        } else if same_text(name, "size") {
            Some(Property::Size)
        } else if same_text(name, "date") {
            Some(Property::Date)
        } else if same_text(name, "permissions") {
            Some(Property::Permissions)
        } else {
            None
        }
    }
}

/// The value of a property.
#[derive(Clone, Debug, PartialEq, Eq)]
pub enum PropertyValue {
    Text(String),
    Flag(bool),
    Long(u64),
    Number(u32),
}

/// What a [`PropertyValue`] says.
pub enum ValueModel {
    Text(Seq<char>),
    Flag(bool),
    Long(u64),
    Number(u32),
}

impl View for PropertyValue {
    type V = ValueModel;

    open spec fn view(&self) -> ValueModel {
        match self {
            PropertyValue::Text(text) => ValueModel::Text(text@),
            PropertyValue::Flag(flag) => ValueModel::Flag(*flag),
            PropertyValue::Long(long) => ValueModel::Long(*long),
            PropertyValue::Number(number) => ValueModel::Number(*number),
        }
    }
}

/// What a row holds.
pub struct EntryState {
    pub name: Seq<char>,
    pub path: Seq<char>,
    pub is_dir: bool,
    pub size: u64,
    pub date: Seq<char>,
    pub permissions: Option<u32>,
    pub extra: Seq<Seq<char>>,
}

/// Permissions as a property holds them.
pub open spec fn permission_number(permissions: Option<u32>) -> u32 {
    match permissions {
        Some(mode) => mode,
        None => NO_PERMISSIONS,
    }
}

/// Permissions as a row holds them.
pub open spec fn known_permissions(number: u32) -> Option<u32> {
    if number == NO_PERMISSIONS {
        None
    } else {
        Some(number)
    }
}

impl EntryState {
    /// The value of a property.
    pub open spec fn get(self, property: Property) -> ValueModel {
        match property {
            Property::Name => ValueModel::Text(self.name),
            Property::Path => ValueModel::Text(self.path),
            Property::IsDir => ValueModel::Flag(self.is_dir),
            Property::Size => ValueModel::Long(self.size),
            Property::Date => ValueModel::Text(self.date),
            Property::Permissions => ValueModel::Number(permission_number(self.permissions)),
        }
    }

    /// The row with another value of a property.
    pub open spec fn with(self, property: Property, value: ValueModel) -> EntryState {
        match property {
            Property::Name => EntryState { name: value->Text_0, ..self },
            Property::Path => EntryState { path: value->Text_0, ..self },
            Property::IsDir => EntryState { is_dir: value->Flag_0, ..self },
            Property::Size => EntryState { size: value->Long_0, ..self },
            Property::Date => EntryState { date: value->Text_0, ..self },
            Property::Permissions => EntryState {
                permissions: known_permissions(value->Number_0),
                ..self
            },
        }
    }
}

/// Whether a value is of the type that a property has.
pub open spec fn fits(property: Property, value: ValueModel) -> bool {
    match property {
        Property::Name => value is Text,
        Property::Path => value is Text,
        Property::IsDir => value is Flag,
        Property::Size => value is Long,
        Property::Date => value is Text,
        Property::Permissions => value is Number,
    }
}

/// A row of a file list.
pub struct FileEntry {
    name: String,
    path: String,
    is_dir: bool,
    size: u64,
    date: String,
    permissions: Option<u32>,
    extra: Vec<String>,
}

/// What some texts say.
pub open spec fn text_views(texts: Seq<String>) -> Seq<Seq<char>> {
    texts.map_values(|t: String| t@)
}

impl View for FileEntry {
    type V = EntryState;

    closed spec fn view(&self) -> EntryState {
        EntryState {
            name: self.name@,
            path: self.path@,
            is_dir: self.is_dir,
            size: self.size,
            date: self.date@,
            permissions: self.permissions,
            extra: text_views(self.extra@),
        }
    }
}

impl FileEntry {
    /// A row with these properties, set one after another.
    pub fn new(
        name: &str,
        path: &str,
        is_dir: bool,
        size: u64,
        date: &str,
        permissions: Option<u32>,
    ) -> (entry: FileEntry)
        ensures
            entry@ == (EntryState {
                name: name@,
                path: path@,
                is_dir,
                size,
                date: date@,
                permissions: known_permissions(permission_number(permissions)),
                extra: Seq::empty(),
            }),
    {
        let mut entry = FileEntry {
            name: String::new(),
            path: String::new(),
            is_dir: false,
            size: 0,
            date: String::new(),
            permissions: None,
            extra: Vec::new(),
        };
        assert(text_views(entry.extra@) =~= Seq::<Seq<char>>::empty());
        entry.set_property(Property::Name, PropertyValue::Text(name.to_owned()));
        entry.set_property(Property::Path, PropertyValue::Text(path.to_owned()));
        entry.set_property(Property::IsDir, PropertyValue::Flag(is_dir));
        entry.set_property(Property::Size, PropertyValue::Long(size));
        entry.set_property(Property::Date, PropertyValue::Text(date.to_owned()));
        entry.set_permissions(permissions);
        entry
    }

    /// Gives a property another value.
    pub fn set_property(&mut self, property: Property, value: PropertyValue)
        requires
            fits(property, value@),
        ensures
            final(self)@ == old(self)@.with(property, value@),
    {
        match (property, value) {
            (Property::Name, PropertyValue::Text(text)) => {
                self.name = text;
            },
            (Property::Path, PropertyValue::Text(text)) => {
                self.path = text;
            },
            (Property::IsDir, PropertyValue::Flag(flag)) => {
                self.is_dir = flag;
            },
            (Property::Size, PropertyValue::Long(long)) => {
                self.size = long;
            },
            (Property::Date, PropertyValue::Text(text)) => {
                self.date = text;
            },
            (Property::Permissions, PropertyValue::Number(number)) => {
                self.permissions = if number == NO_PERMISSIONS {
                    None
                } else {
                    Some(number)
                };
            },
            _ => {},
        }
    }

    /// The value of a property.
    pub fn property(&self, property: Property) -> (value: PropertyValue)
        ensures
            value@ == self@.get(property),
    {
        match property {
            Property::Name => PropertyValue::Text(self.name.clone()),
            Property::Path => PropertyValue::Text(self.path.clone()),
            Property::IsDir => PropertyValue::Flag(self.is_dir),
            Property::Size => PropertyValue::Long(self.size),
            Property::Date => PropertyValue::Text(self.date.clone()),
            Property::Permissions => match self.permissions {
                Some(mode) => PropertyValue::Number(mode),
                None => PropertyValue::Number(NO_PERMISSIONS),
            },
        }
    }

    pub fn name(&self) -> (name: String)
        ensures
            name@ == self@.name,
    {
        self.name.clone()
    }

    pub fn path(&self) -> (path: String)
        ensures
            path@ == self@.path,
    {
        self.path.clone()
    }

    pub fn is_dir(&self) -> (is_dir: bool)
        ensures
            is_dir == self@.is_dir,
    {
        self.is_dir
    }

    pub fn size(&self) -> (size: u64)
        ensures
            size == self@.size,
    {
        self.size
    }

    pub fn date(&self) -> (date: String)
        ensures
            date@ == self@.date,
    {
        self.date.clone()
    }

    /// The permissions, if they are known.
    pub fn permissions(&self) -> (permissions: Option<u32>)
        ensures
            permissions == known_permissions(permission_number(self@.permissions)),
    {
        match self.permissions {
            Some(mode) => if mode == NO_PERMISSIONS {
                None
            } else {
                Some(mode)
            },
            None => None,
        }
    }

    /// The values of the extra columns.
    pub fn extra(&self) -> (values: Vec<String>)
        ensures
            text_views(values@) == self@.extra,
    {
        let mut values: Vec<String> = Vec::new();
        let mut i: usize = 0;
        while i < self.extra.len()
            invariant
                i <= self.extra@.len(),
                values@.len() == i,
                forall|k: int| 0 <= k < i ==> (#[trigger] values@[k])@ == self.extra@[k]@,
            decreases self.extra@.len() - i,
        {
            values.push(self.extra[i].clone());
            i += 1;
        }
        assert(text_views(values@) =~= text_views(self.extra@));
        values
    }

    /// The value of an extra column, empty if there is none.
    pub fn extra_at(&self, index: usize) -> (value: String)
        ensures
            value@ == (if index < self@.extra.len() {
                self@.extra[index as int]
            } else {
                Seq::empty()
            }),
    {
        if index < self.extra.len() {
            self.extra[index].clone()
        } else {
            let value = String::new();
            assert(value@ =~= Seq::<char>::empty());
            value
        }
    }

    /// Gives the extra columns these values.
    pub fn set_extra(&mut self, values: Vec<String>)
        ensures
            final(self)@ == (EntryState { extra: text_views(values@), ..old(self)@ }),
    {
        self.extra = values;
    }

    /// Changes the permissions.
    pub fn set_permissions(&mut self, perms: Option<u32>)
        ensures
            final(self)@ == (EntryState {
                permissions: known_permissions(permission_number(perms)),
                ..old(self)@
            }),
    {
        let number: u32 = match perms {
            Some(mode) => mode,
            None => NO_PERMISSIONS,
        };
        self.set_property(Property::Permissions, PropertyValue::Number(number));
    }
}

/// Permissions survive being kept as a number, but for the one mode whose number stands for
/// permissions that are not known.
pub proof fn permissions_survive(permissions: Option<u32>)
    requires
        permissions != Some(NO_PERMISSIONS),
    ensures
        known_permissions(permission_number(permissions)) == permissions,
{
}

/// What was set is what is read.
pub proof fn a_property_that_was_set_is_read(
    entry: EntryState,
    property: Property,
    value: ValueModel,
)
    requires
        fits(property, value),
    ensures
        entry.with(property, value).get(property) == value,
{
}

/// Setting one property leaves the others as they are.
pub proof fn properties_are_independent(
    entry: EntryState,
    property: Property,
    value: ValueModel,
    other: Property,
)
    requires
        other != property,
    ensures
        entry.with(property, value).get(other) == entry.get(other),
        entry.with(property, value).extra == entry.extra,
{
}

} // verus!
