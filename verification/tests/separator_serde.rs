use friperms::{Separator, SetValue};
use serde::ser::SerializeStruct;
use serde::{Serialize, Serializer};

#[derive(Debug)]
struct PermissionNode {
    value1: Separator<bool>,
    value2: Separator<bool>,
}

// Written out by hand, as the derive with `skip_serializing_if =
// "Set::is_empty"` would expand: an empty slot is omitted from the output
// entirely, a present one serializes as its inner value.
impl Serialize for PermissionNode {
    fn serialize<S: Serializer>(&self, serializer: S) -> Result<S::Ok, S::Error> {
        let mut len = 0;
        if !self.value1.is_empty() {
            len += 1;
        }
        if !self.value2.is_empty() {
            len += 1;
        }
        let mut state = serializer.serialize_struct("PermissionNode", len)?;
        if !self.value1.is_empty() {
            state.serialize_field("value1", &self.value1.0)?;
        } else {
            state.skip_field("value1")?;
        }
        if !self.value2.is_empty() {
            state.serialize_field("value2", &self.value2.0)?;
        } else {
            state.skip_field("value2")?;
        }
        state.end()
    }
}

#[test]
fn serializing_none_is_empty() {
    let node1 = PermissionNode {
        value1: Separator::new(true),
        value2: Separator::new(false),
    };

    println!("{node1:?}");

    assert_eq!(
        "{\"value1\":true}",
        serde_json::to_string(&node1).unwrap().as_str()
    );
}
