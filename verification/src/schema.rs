//! The part of a simulation's configuration that the simulation itself reads.
use vstd::prelude::*;

verus! {

/// The JSON schema that a configuration file must satisfy.
pub const SIMULATION_SCHEMA: &'static str = r##"{
  "$schema": "http://json-schema.org/draft-07/schema#",
  "title": "SimulationConfiguration",
  "type": "array",
  "items": { "$ref": "#/definitions/SimulationConfigurationItem" },
  "definitions": {
    "SimulationConfigurationItem": {
      "type": "object",
      "required": ["uuid", "graph_file_name", "message_generation", "max_iterations", "routing_method"],
      "properties": {
        "uuid": { "type": "string", "format": "uuid" },
        "graph_file_name": { "type": "string" },
        "message_generation": { "type": "number", "exclusiveMinimum": 0, "maximum": 1 },
        "max_iterations": { "type": "integer", "exclusiveMinimum": 0 },
        "warm_up_iterations": { "type": ["integer", "null"], "minimum": 0 },
        "random_seed": { "type": ["integer", "null"], "minimum": 0 },
        "routing_method": {
          "oneOf": [
            { "type": "string", "enum": ["minimal_paths", "random_walk"] },
            {
              "type": "object",
              "required": ["limited_visibility"],
              "properties": { "limited_visibility": { "type": "integer", "minimum": 0 } },
              "additionalProperties": false
            }
          ]
        },
        "graph_generation_info": { "type": "object" },
        "modifiers": { "type": "array", "items": { "$ref": "#/definitions/ModifierEdgeCapacity" } },
        "observers": { "type": "array", "items": { "$ref": "#/definitions/Observer" } }
      }
    },
    "ModifierEdgeCapacity": {
      "type": "object",
      "required": ["type", "free_flow_rate", "free_flow_sampling_time"],
      "properties": {
        "type": { "const": "ModifierEdgeCapacity" },
        "free_flow_rate": { "type": "number", "exclusiveMinimum": 0, "maximum": 1 },
        "free_flow_sampling_time": { "type": "integer", "minimum": 0 },
        "minimal_capacity": { "type": "integer", "minimum": 0 },
        "multiplier": { "type": "number" }
      }
    },
    "Observer": {
      "oneOf": [
        {
          "type": "object",
          "required": ["type"],
          "properties": {
            "type": { "enum": ["ObserverEdgeQueue", "ObserverEdgeReceivedMessages", "ObserverTotalMessages"] }
          }
        },
        {
          "type": "object",
          "required": ["type", "update_interval"],
          "properties": {
            "type": { "const": "ObserverEdgeCapacity" },
            "update_interval": { "type": "integer", "minimum": 1 }
          }
        }
      ]
    }
  }
}"##;

/// Whether the text `schema` is JSON from which the `jsonschema` crate, with
/// its default options, builds a validator.
pub uninterp spec fn usable_schema(schema: Seq<char>) -> bool;

/// Whether the text `text` is JSON that satisfies the schema written in the
/// text `schema`, as the `jsonschema` crate decides it with its default
/// options.
pub uninterp spec fn config_schema_accepts(schema: Seq<char>, text: Seq<char>) -> bool;

/// Parses `schema` with `serde_json::from_str` and asks
/// `jsonschema::validator_for` to build a validator from it. The contract
/// claims that the answer depends on the text alone, named `usable_schema`.
#[verifier::external_body]
fn schema_compiles(schema: &str) -> (r: bool)
    ensures
        r == usable_schema(schema@),
{
    match serde_json::from_str::<serde_json::Value>(schema) {
        Ok(value) => match jsonschema::validator_for(&value) {
            Ok(_) => true,
            Err(_) => false,
        },
        Err(_) => false,
    }
}

/// Parses `schema` and `text` with `serde_json::from_str` and checks the
/// second against the first with `jsonschema::is_valid`, which panics only on
/// a schema it cannot build, excluded by `requires`. Text that does not parse
/// is refused. The contract claims that the answer depends on the two texts
/// alone, named `config_schema_accepts`.
#[verifier::external_body]
fn config_matches_schema(schema: &str, text: &str) -> (r: bool)
    requires
        usable_schema(schema@),
    ensures
        r == config_schema_accepts(schema@, text@),
{
    let schema: serde_json::Value = match serde_json::from_str(schema) {
        Ok(schema) => schema,
        Err(_) => return false,
    };
    match serde_json::from_str::<serde_json::Value>(text) {
        Ok(instance) => jsonschema::is_valid(&schema, &instance),
        Err(_) => false,
    }
}

/// Whether a configuration file's text is JSON that satisfies the schema of
/// simulation configurations, `SIMULATION_SCHEMA`. Should that schema not
/// build, every text is refused.
pub fn validate_json_simulation(text: &str) -> (r: bool)
    ensures
        r == (usable_schema(SIMULATION_SCHEMA@) && config_schema_accepts(SIMULATION_SCHEMA@, text@)),
{
    if !schema_compiles(SIMULATION_SCHEMA) {
        return false;
    }
    config_matches_schema(SIMULATION_SCHEMA, text)
}

/// How a message chooses the next vertex on its way.
#[derive(Debug, Clone, Copy, PartialEq, Eq)]
pub enum RoutingMethod {
    /// Along a shortest path, drawn in proportion to the number of shortest
    /// paths through each neighbour.
    MinimalPaths,
    /// To a neighbour drawn uniformly.
    RandomWalk,
    /// Along a shortest path when the destination is at most this far away,
    /// to a uniformly drawn neighbour otherwise.
    LimitedVisibility(u64),
}

/// The settings of one simulation that the library reads.
#[derive(Debug)]
pub struct SimulationConfigurationItem {
    pub uuid: String,
    pub graph_file_name: String,
    pub max_iterations: u64,
    pub warm_up_iterations: Option<u64>,
    pub random_seed: Option<u64>,
    pub routing_method: RoutingMethod,
}

impl Clone for SimulationConfigurationItem {
    fn clone(&self) -> (r: Self)
        ensures
            r == *self,
    {
        SimulationConfigurationItem {
            uuid: self.uuid.clone(),
            graph_file_name: self.graph_file_name.clone(),
            max_iterations: self.max_iterations,
            warm_up_iterations: self.warm_up_iterations,
            random_seed: self.random_seed,
            routing_method: self.routing_method,
        }
    }
}

/// The graph names of `items`, each once, in order of first appearance.
pub open spec fn distinct_names(items: Seq<SimulationConfigurationItem>) -> Seq<Seq<char>>
    decreases items.len(),
{
    if items.len() == 0 {
        seq![]
    } else {
        let f = distinct_names(items.drop_last());
        let name = items.last().graph_file_name@;
        if f.contains(name) { f } else { f.push(name) }
    }
}

/// The items of `items` on the graph named `name`, in order.
pub open spec fn items_on(items: Seq<SimulationConfigurationItem>, name: Seq<char>) -> Seq<SimulationConfigurationItem> {
    items.filter(|it: SimulationConfigurationItem| it.graph_file_name@ == name)
}

/// Simulation settings grouped by the graph they run on.
pub struct GraphGroups {
    groups: Vec<(String, Vec<SimulationConfigurationItem>)>,
}

impl GraphGroups {
    /// The graph names, in order of first appearance.
    pub closed spec fn names(&self) -> Seq<Seq<char>> {
        self.groups@.map_values(|g: (String, Vec<SimulationConfigurationItem>)| g.0@)
    }

    /// The settings of group `i`.
    pub closed spec fn members(&self, i: int) -> Seq<SimulationConfigurationItem> {
        self.groups@[i].1@
    }

    pub fn len(&self) -> (r: usize)
        ensures
            r == self.names().len(),
    {
        self.groups.len()
    }

    pub fn is_empty(&self) -> (r: bool)
        ensures
            r <==> self.names().len() == 0,
    {
        self.groups.len() == 0
    }

    /// The graph name and the settings of group `i`.
    pub fn group(&self, i: usize) -> (r: (&String, &Vec<SimulationConfigurationItem>))
        requires
            i < self.names().len(),
        ensures
            r.0@ == self.names()[i as int],
            r.1@ == self.members(i as int),
    {
        (&self.groups[i].0, &self.groups[i].1)
    }

    /// The settings on the graph named `name`, if any.
    pub fn get(&self, name: &String) -> (r: Option<&Vec<SimulationConfigurationItem>>)
        ensures
            r is None <==> !self.names().contains(name@),
            r matches Some(v) ==> exists|i: int| 0 <= i < self.names().len() && self.names()[i] == name@
                && v@ == self.members(i),
    {
        let mut i: usize = 0;
        while i < self.groups.len()
            invariant
                i <= self.groups@.len(),
                forall|j: int| 0 <= j < i ==> self.names()[j] != name@,
            decreases self.groups@.len() - i,
        {
            if self.groups[i].0 == *name {
                assert(self.names()[i as int] == name@);
                assert(self.members(i as int) == self.groups@[i as int].1@);
                return Some(&self.groups[i].1);
            }
            i = i + 1;
        }
        None
    }
}

/// Groups simulation settings by graph name: one group per name, in order
/// of first appearance, each holding the settings on that graph in order.
pub fn group_by_graph(simulation_configs: &Vec<SimulationConfigurationItem>) -> (r: GraphGroups)
    ensures
        r.names() == distinct_names(simulation_configs@),
        forall|i: int| 0 <= i < r.names().len() ==> #[trigger] r.members(i) == items_on(simulation_configs@, r.names()[i]),
{
    let mut groups: Vec<(String, Vec<SimulationConfigurationItem>)> = Vec::new();
    let mut k: usize = 0;
    while k < simulation_configs.len()
        invariant
            k <= simulation_configs@.len(),
            groups@.map_values(|g: (String, Vec<SimulationConfigurationItem>)| g.0@) == distinct_names(simulation_configs@.take(k as int)),
            forall|i: int| 0 <= i < groups@.len() ==> (#[trigger] groups@[i]).1@ == items_on(simulation_configs@.take(k as int), groups@[i].0@),
        decreases simulation_configs@.len() - k,
    {
        let config = &simulation_configs[k];
        let ghost items = simulation_configs@.take(k as int);
        let ghost items1 = simulation_configs@.take(k + 1);
        let ghost names0 = groups@.map_values(|g: (String, Vec<SimulationConfigurationItem>)| g.0@);
        proof {
            assert(items1.drop_last() =~= items);
            assert(items1.last() == *config);
            assert forall|nm: Seq<char>| nm != config.graph_file_name@ implies #[trigger] items_on(items1, nm) == items_on(items, nm) by {
                reveal_with_fuel(Seq::filter, 1);
            }
            assert(items_on(items1, config.graph_file_name@) == items_on(items, config.graph_file_name@).push(*config)) by {
                reveal_with_fuel(Seq::filter, 1);
            }
        }
        let mut j: usize = 0;
        let mut i: usize = groups.len();
        while j < groups.len()
            invariant
                j <= groups@.len(),
                i <= groups@.len(),
                i == groups@.len() ==> forall|l: int| 0 <= l < j ==> groups@[l].0@ != config.graph_file_name@,
                i < groups@.len() ==> groups@[i as int].0@ == config.graph_file_name@,
            decreases groups@.len() - j,
        {
            if i == groups.len() && groups[j].0 == config.graph_file_name {
                i = j;
            }
            j = j + 1;
        }
        if i < groups.len() {
            let ghost g0 = groups@;
            let mut members = groups[i].1.clone();
            proof {
                assert forall|l: int| 0 <= l < members@.len() implies members@[l] == g0[i as int].1@[l] by {
                    assert(vstd::pervasive::cloned(groups[i as int].1[l], members[l]));
                }
                assert(members@ =~= g0[i as int].1@);
            }
            let c2 = config.clone();
            assert(c2 == *config);
            members.push(c2);
            let name = groups[i].0.clone();
            groups.set(i, (name, members));
            proof {
                assert(names0.contains(config.graph_file_name@)) by {
                    assert(names0[i as int] == config.graph_file_name@);
                }
                assert(groups@.map_values(|g: (String, Vec<SimulationConfigurationItem>)| g.0@) =~= names0);
                assert forall|l: int| 0 <= l < groups@.len() implies (#[trigger] groups@[l]).1@ == items_on(items1, groups@[l].0@) by {
                    if l != i {
                        assert(groups@[l] == g0[l]);
                        lemma_distinct_names_no_duplicates(items);
                        assert(names0[l] != names0[i as int]);
                    } else {
                        assert(groups@[l].1@ =~= g0[l].1@.push(*config));
                        assert(groups@[l].0@ == config.graph_file_name@);
                        assert(g0[l].0@ == config.graph_file_name@);
                        assert(g0[l].1@ == items_on(items, g0[l].0@));
                        assert(items_on(items1, config.graph_file_name@) == items_on(items, config.graph_file_name@).push(*config));
                    }
                }
            }
        } else {
            let ghost g0 = groups@;
            let mut members: Vec<SimulationConfigurationItem> = Vec::new();
            members.push(config.clone());
            groups.push((config.graph_file_name.clone(), members));
            proof {
                assert(!names0.contains(config.graph_file_name@)) by {
                    if names0.contains(config.graph_file_name@) {
                        let l = choose|l: int| 0 <= l < names0.len() && names0[l] == config.graph_file_name@;
                        assert(g0[l].0@ == config.graph_file_name@);
                    }
                }
                assert(groups@.map_values(|g: (String, Vec<SimulationConfigurationItem>)| g.0@) =~= names0.push(config.graph_file_name@));
                assert(items_on(items, config.graph_file_name@) =~= Seq::<SimulationConfigurationItem>::empty()) by {
                    assert forall|l: int| 0 <= l < items.len() implies items[l].graph_file_name@ != config.graph_file_name@ by {
                        lemma_distinct_names_contains(items, l);
                    }
                    lemma_filter_none(items, config.graph_file_name@);
                }
                assert forall|l: int| 0 <= l < groups@.len() implies (#[trigger] groups@[l]).1@ == items_on(items1, groups@[l].0@) by {
                    if l < g0.len() {
                        assert(groups@[l] == g0[l]);
                    } else {
                        assert(groups@[l].1@ =~= seq![*config]);
                        assert(items_on(items, config.graph_file_name@).push(*config) =~= seq![*config]);
                    }
                }
            }
        }
        k = k + 1;
    }
    assert(simulation_configs@.take(simulation_configs@.len() as int) =~= simulation_configs@);
    GraphGroups { groups }
}

proof fn lemma_distinct_names_contains(items: Seq<SimulationConfigurationItem>, j: int)
    requires
        0 <= j < items.len(),
    ensures
        distinct_names(items).contains(items[j].graph_file_name@),
    decreases items.len(),
{
    let f = distinct_names(items.drop_last());
    if j < items.len() - 1 {
        lemma_distinct_names_contains(items.drop_last(), j);
        assert(items.drop_last()[j] == items[j]);
        if !f.contains(items.last().graph_file_name@) {
            let i = choose|i: int| 0 <= i < f.len() && f[i] == items[j].graph_file_name@;
            assert(f.push(items.last().graph_file_name@)[i] == items[j].graph_file_name@);
        }
    } else {
        if !f.contains(items.last().graph_file_name@) {
            assert(f.push(items.last().graph_file_name@)[f.len() as int] == items[j].graph_file_name@);
        }
    }
}

proof fn lemma_distinct_names_no_duplicates(items: Seq<SimulationConfigurationItem>)
    ensures
        distinct_names(items).no_duplicates(),
    decreases items.len(),
{
    if items.len() > 0 {
        lemma_distinct_names_no_duplicates(items.drop_last());
        let f = distinct_names(items.drop_last());
        let name = items.last().graph_file_name@;
        if !f.contains(name) {
            assert forall|a: int, b: int| 0 <= a < b < f.push(name).len() implies f.push(name)[a] != f.push(name)[b] by {
                if b == f.len() {
                    assert(f.contains(f[a]));
                }
            }
        }
    }
}

proof fn lemma_filter_none(items: Seq<SimulationConfigurationItem>, name: Seq<char>)
    requires
        forall|j: int| 0 <= j < items.len() ==> items[j].graph_file_name@ != name,
    ensures
        items_on(items, name) == Seq::<SimulationConfigurationItem>::empty(),
    decreases items.len(),
{
    reveal_with_fuel(Seq::filter, 1);
    if items.len() > 0 {
        lemma_filter_none(items.drop_last(), name);
    }
}

} // verus!
