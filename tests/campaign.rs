use gm_unleashed_md::{Campaign, EntityContent, NewEntityError, UpdateEntityError};

#[test]
fn name_is_stored() {
    assert_eq!(Campaign::new("C".to_string()).name(), "C");
}

#[test]
fn create_entity_with_name() {
    let mut camp = Campaign::new("C".to_string());
    camp.new_entity("E".to_string()).unwrap();
    assert_eq!(camp.entity("E").unwrap().name(), "E");
}

#[test]
fn cannot_create_entity_with_same_name() {
    let mut camp = Campaign::new("C".to_string());
    camp.new_entity("E".to_string()).unwrap();
    assert_eq!(camp.new_entity("E".to_string()), Err(NewEntityError::DuplicateName));
}

#[test]
fn content_is_persisted() {
    let mut camp = Campaign::new("C".to_string());
    camp.new_entity("E".to_string()).unwrap();
    camp.update_entity_content("E", EntityContent { text: "Hello world".to_string() }).unwrap();
    assert_eq!(camp.entity("E").unwrap().content().text, "Hello world");
}

#[test]
fn cannot_update_nonexistent_entity() {
    let mut camp = Campaign::new("C".to_string());
    assert_eq!(
        camp.update_entity_content("E", EntityContent { text: "".to_string() }),
        Err(UpdateEntityError::NoEntity)
    );
}

#[test]
fn distinct_entities_are_kept_in_order() {
    let mut camp = Campaign::new("C".to_string());
    assert_eq!(camp.new_entity("E".to_string()), Ok(()));
    assert_eq!(camp.new_entity("F".to_string()), Ok(()));
    assert_eq!(camp.entities().len(), 2);
    assert_eq!(camp.entities()[0].name(), "E");
    assert_eq!(camp.entities()[1].name(), "F");
    assert_eq!(camp.entities()[1].content().text, "");
    assert!(camp.entity("G").is_none());
}

#[test]
fn update_touches_only_the_named_entity() {
    let mut camp = Campaign::new("C".to_string());
    camp.new_entity("E".to_string()).unwrap();
    camp.new_entity("F".to_string()).unwrap();
    assert_eq!(camp.update_entity_content("F", EntityContent { text: "*x*".to_string() }), Ok(()));
    assert_eq!(camp.entity("E").unwrap().content().text, "");
    assert_eq!(camp.entity("F").unwrap().content().text, "*x*");
    assert_eq!(EntityContent::new().text, "");
}
