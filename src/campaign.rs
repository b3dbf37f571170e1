use vstd::prelude::*;

verus! {

/// The markup text kept for an entity.
pub struct EntityContent {
    pub text: String,
}

impl EntityContent {
    pub fn new() -> (r: EntityContent)
        ensures
            r.text@ == Seq::<char>::empty(),
    {
        EntityContent { text: String::new() }
    }
}

/// A named entity of a campaign and its content.
pub struct Entity {
    name: String,
    content: EntityContent,
}

/// An entity as a pair of its name and its content text.
pub type EntityView = (Seq<char>, Seq<char>);

impl View for Entity {
    type V = EntityView;

    closed spec fn view(&self) -> EntityView {
        (self.name@, self.content.text@)
    }
}

impl Entity {
    pub fn new(name: String) -> (r: Entity)
        ensures
            r@ == (name@, Seq::<char>::empty()),
    {
        Entity { name, content: EntityContent::new() }
    }

    pub fn name(&self) -> (r: &str)
        ensures
            r@ == self@.0,
    {
        self.name.as_str()
    }

    pub fn content(&self) -> (r: &EntityContent)
        ensures
            r.text@ == self@.1,
    {
        &self.content
    }
}

pub type Entities = Vec<Entity>;

/// A campaign: a name and entities with distinct names.
pub struct Campaign {
    name: String,
    entities: Entities,
}

pub struct CampaignView {
    pub name: Seq<char>,
    pub entities: Seq<EntityView>,
}

impl CampaignView {
    /// No two entities share a name.
    pub open spec fn well_formed(self) -> bool {
        forall|i: int, j: int|
            0 <= i < self.entities.len() && 0 <= j < self.entities.len() && i != j
                ==> #[trigger] self.entities[i].0 != #[trigger] self.entities[j].0
    }

    pub open spec fn has_entity(self, name: Seq<char>) -> bool {
        exists|i: int| 0 <= i < self.entities.len() && #[trigger] self.entities[i].0 == name
    }
}

#[derive(PartialEq, Eq, Debug)]
pub enum NewEntityError {
    DuplicateName,
}

#[derive(PartialEq, Eq, Debug)]
pub enum UpdateEntityError {
    NoEntity,
}

impl View for Campaign {
    type V = CampaignView;

    closed spec fn view(&self) -> CampaignView {
        CampaignView { name: self.name@, entities: self.entities@.map_values(|e: Entity| e@) }
    }
}

impl Campaign {
    #[verifier::type_invariant]
    closed spec fn inv(&self) -> bool {
        self@.well_formed()
    }

    pub fn new(name: String) -> (r: Campaign)
        ensures
            r@.name == name@,
            r@.entities == Seq::<EntityView>::empty(),
            r@.well_formed(),
    {
        let r = Campaign { name, entities: Vec::new() };
        assert(r@.entities =~= Seq::<EntityView>::empty());
        r
    }

    /// The position of the entity called `name`, if there is one.
    fn find(&self, name: &String) -> (r: Option<usize>)
        ensures
            match r {
                Some(i) => i < self@.entities.len() && self@.entities[i as int].0 == name@,
                None => !self@.has_entity(name@),
            },
    {
        let mut i: usize = 0;
        while i < self.entities.len()
            invariant
                i <= self.entities@.len(),
                forall|k: int| 0 <= k < i ==> self@.entities[k].0 != name@,
            decreases self.entities@.len() - i,
        {
            assert(self@.entities[i as int] == self.entities@[i as int]@);
            if self.entities[i].name == *name {
                return Some(i);
            }
            i = i + 1;
        }
        None
    }

    /// Adds an entity with empty content, unless one of that name exists.
    pub fn new_entity(&mut self, name: String) -> (r: Result<(), NewEntityError>)
        ensures
            final(self)@.well_formed(),
            final(self)@.name == old(self)@.name,
            r is Err <==> old(self)@.has_entity(name@),
            r is Ok ==> final(self)@.entities == old(self)@.entities.push((name@, Seq::<char>::empty())),
            r is Err ==> final(self)@ == old(self)@,
    {
        proof {
            use_type_invariant(&*self);
        }
        match self.find(&name) {
            Some(_) => Err(NewEntityError::DuplicateName),
            None => {
                let ghost before = self.entities@;
                let mut entities: Entities = Vec::new();
                std::mem::swap(&mut entities, &mut self.entities);
                entities.push(Entity::new(name));
                proof {
                    let es = entities@.map_values(|e: Entity| e@);
                    assert(es =~= old(self)@.entities.push((name@, Seq::<char>::empty())));
                    assert forall|i: int| 0 <= i < before.len() implies #[trigger] es[i].0
                        != name@ by {
                        assert(es[i] == old(self)@.entities[i]);
                        assert(!old(self)@.has_entity(name@));
                    }
                    assert(CampaignView { name: old(self)@.name, entities: es }.well_formed());
                }
                self.entities = entities;
                Ok(())
            },
        }
    }

    /// Replaces the content of the entity called `name`.
    pub fn update_entity_content(&mut self, name: &str, content: EntityContent) -> (r: Result<
        (),
        UpdateEntityError,
    >)
        ensures
            final(self)@.well_formed(),
            final(self)@.name == old(self)@.name,
            r is Err <==> !old(self)@.has_entity(name@),
            r is Err ==> final(self)@ == old(self)@,
            r is Ok ==> exists|i: int|
                0 <= i < old(self)@.entities.len() && #[trigger] old(self)@.entities[i].0 == name@
                    && final(self)@.entities == old(self)@.entities.update(
                    i,
                    (name@, content.text@),
                ),
    {
        proof {
            use_type_invariant(&*self);
        }
        let key = name.to_owned();
        match self.find(&key) {
            Some(i) => {
                let ghost before = self@.entities;
                let entity = Entity { name: self.entities[i].name.clone(), content };
                let mut entities: Entities = Vec::new();
                std::mem::swap(&mut entities, &mut self.entities);
                entities.set(i, entity);
                proof {
                    let es = entities@.map_values(|e: Entity| e@);
                    assert(es =~= before.update(i as int, (name@, content.text@)));
                    assert forall|a: int, b: int|
                        0 <= a < es.len() && 0 <= b < es.len() && a != b implies #[trigger] es[a].0
                        != #[trigger] es[b].0 by {
                        assert(es[a].0 == before[a].0);
                        assert(es[b].0 == before[b].0);
                    }
                    assert(CampaignView { name: old(self)@.name, entities: es }.well_formed());
                }
                self.entities = entities;
                Ok(())
            },
            None => Err(UpdateEntityError::NoEntity),
        }
    }

    /// The entity called `name`, if there is one.
    pub fn entity(&self, name: &str) -> (r: Option<&Entity>)
        ensures
            match r {
                Some(e) => self@.entities.contains(e@) && e@.0 == name@,
                None => !self@.has_entity(name@),
            },
    {
        let key = name.to_owned();
        match self.find(&key) {
            Some(i) => {
                assert(self@.entities[i as int] == self.entities@[i as int]@);
                Some(&self.entities[i])
            },
            None => None,
        }
    }

    pub fn entities(&self) -> (r: &Entities)
        ensures
            r@.map_values(|e: Entity| e@) == self@.entities,
    {
        &self.entities
    }

    pub fn name(&self) -> (r: &str)
        ensures
            r@ == self@.name,
    {
        self.name.as_str()
    }
}

} // verus!
