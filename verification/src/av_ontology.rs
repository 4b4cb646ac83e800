//! The RDF vocabulary of the vehicle ontology: namespaces, terms, and how
//! their IRIs are formed.
use vstd::prelude::*;
use crate::text::{push_str, string_of};

verus! {

/// Autonomous vehicle namespace.
pub const AV_NS: &'static str = "http://zenya.com/ontology/av#";

/// Road infrastructure namespace.
pub const ROAD_NS: &'static str = "http://zenya.com/ontology/road#";

/// Sensor namespace.
pub const SENSOR_NS: &'static str = "http://zenya.com/ontology/sensor#";

/// Action namespace.
pub const ACTION_NS: &'static str = "http://zenya.com/ontology/action#";

/// Rule namespace.
pub const RULE_NS: &'static str = "http://zenya.com/ontology/rule#";

/// Hypergraph namespace.
pub const HYPER_NS: &'static str = "http://zenya.com/ontology/hypergraph#";

/// Terms for vehicles, road users, and their spatial, state and detection properties.
pub struct AVVocab {
    /// The term `Vehicle`.
    pub vehicle: &'static str,
    /// The term `TrafficLight`.
    pub traffic_light: &'static str,
    /// The term `Pedestrian`.
    pub pedestrian: &'static str,
    /// The term `Obstacle`.
    pub obstacle: &'static str,
    /// The term `Lane`.
    pub lane: &'static str,
    /// The term `Intersection`.
    pub intersection: &'static str,
    /// The term `Crosswalk`.
    pub crosswalk: &'static str,
    /// The term `hasPosition`.
    pub has_position: &'static str,
    /// The term `hasVelocity`.
    pub has_velocity: &'static str,
    /// The term `hasAcceleration`.
    pub has_acceleration: &'static str,
    /// The term `distanceTo`.
    pub distance_to: &'static str,
    /// The term `inLane`.
    pub in_lane: &'static str,
    /// The term `heading`.
    pub heading: &'static str,
    /// The term `trajectory`.
    pub trajectory: &'static str,
    /// The term `state`.
    pub state: &'static str,
    /// The term `confidence`.
    pub confidence: &'static str,
    /// The term `timestamp`.
    pub timestamp: &'static str,
    /// The term `detects`.
    pub detects: &'static str,
    /// The term `detectedBy`.
    pub detected_by: &'static str,
}

impl Default for AVVocab {
    fn default() -> (r: AVVocab)
        ensures
            r.vehicle@ == "Vehicle"@,
            r.traffic_light@ == "TrafficLight"@,
            r.pedestrian@ == "Pedestrian"@,
            r.obstacle@ == "Obstacle"@,
            r.lane@ == "Lane"@,
            r.intersection@ == "Intersection"@,
            r.crosswalk@ == "Crosswalk"@,
            r.has_position@ == "hasPosition"@,
            r.has_velocity@ == "hasVelocity"@,
            r.has_acceleration@ == "hasAcceleration"@,
            r.distance_to@ == "distanceTo"@,
            r.in_lane@ == "inLane"@,
            r.heading@ == "heading"@,
            r.trajectory@ == "trajectory"@,
            r.state@ == "state"@,
            r.confidence@ == "confidence"@,
            r.timestamp@ == "timestamp"@,
            r.detects@ == "detects"@,
            r.detected_by@ == "detectedBy"@,
    {
        AVVocab {
            vehicle: "Vehicle",
            traffic_light: "TrafficLight",
            pedestrian: "Pedestrian",
            obstacle: "Obstacle",
            lane: "Lane",
            intersection: "Intersection",
            crosswalk: "Crosswalk",
            has_position: "hasPosition",
            has_velocity: "hasVelocity",
            has_acceleration: "hasAcceleration",
            distance_to: "distanceTo",
            in_lane: "inLane",
            heading: "heading",
            trajectory: "trajectory",
            state: "state",
            confidence: "confidence",
            timestamp: "timestamp",
            detects: "detects",
            detected_by: "detectedBy",
        }
    }
}

/// Terms for control actions and their properties.
pub struct ActionVocab {
    /// The term `Brake`.
    pub brake: &'static str,
    /// The term `Accelerate`.
    pub accelerate: &'static str,
    /// The term `SteerLeft`.
    pub steer_left: &'static str,
    /// The term `SteerRight`.
    pub steer_right: &'static str,
    /// The term `EmergencyBrake`.
    pub emergency_brake: &'static str,
    /// The term `Yield`.
    pub yield_action: &'static str,
    /// The term `ChangeLane`.
    pub change_lane: &'static str,
    /// The term `intensity`.
    pub intensity: &'static str,
    /// The term `duration`.
    pub duration: &'static str,
    /// The term `priority`.
    pub priority: &'static str,
    /// The term `triggeredBy`.
    pub triggered_by: &'static str,
    /// The term `reason`.
    pub reason: &'static str,
}

impl Default for ActionVocab {
    fn default() -> (r: ActionVocab)
        ensures
            r.brake@ == "Brake"@,
            r.accelerate@ == "Accelerate"@,
            r.steer_left@ == "SteerLeft"@,
            r.steer_right@ == "SteerRight"@,
            r.emergency_brake@ == "EmergencyBrake"@,
            r.yield_action@ == "Yield"@,
            r.change_lane@ == "ChangeLane"@,
            r.intensity@ == "intensity"@,
            r.duration@ == "duration"@,
            r.priority@ == "priority"@,
            r.triggered_by@ == "triggeredBy"@,
            r.reason@ == "reason"@,
    {
        ActionVocab {
            brake: "Brake",
            accelerate: "Accelerate",
            steer_left: "SteerLeft",
            steer_right: "SteerRight",
            emergency_brake: "EmergencyBrake",
            yield_action: "Yield",
            change_lane: "ChangeLane",
            intensity: "intensity",
            duration: "duration",
            priority: "priority",
            triggered_by: "triggeredBy",
            reason: "reason",
        }
    }
}

/// Terms for road infrastructure.
pub struct RoadVocab {
    /// The term `RoadSegment`.
    pub road_segment: &'static str,
    /// The term `SpeedLimitZone`.
    pub speed_limit_zone: &'static str,
    /// The term `speedLimit`.
    pub speed_limit: &'static str,
    /// The term `zoneType`.
    pub zone_type: &'static str,
    /// The term `surfaceCondition`.
    pub surface_condition: &'static str,
    /// The term `frictionCoefficient`.
    pub friction_coefficient: &'static str,
    /// The term `adjacentLane`.
    pub adjacent_lane: &'static str,
}

impl Default for RoadVocab {
    fn default() -> (r: RoadVocab)
        ensures
            r.road_segment@ == "RoadSegment"@,
            r.speed_limit_zone@ == "SpeedLimitZone"@,
            r.speed_limit@ == "speedLimit"@,
            r.zone_type@ == "zoneType"@,
            r.surface_condition@ == "surfaceCondition"@,
            r.friction_coefficient@ == "frictionCoefficient"@,
            r.adjacent_lane@ == "adjacentLane"@,
    {
        RoadVocab {
            road_segment: "RoadSegment",
            speed_limit_zone: "SpeedLimitZone",
            speed_limit: "speedLimit",
            zone_type: "zoneType",
            surface_condition: "surfaceCondition",
            friction_coefficient: "frictionCoefficient",
            adjacent_lane: "adjacentLane",
        }
    }
}

/// The IRI of a term: its namespace followed by its local name.
pub fn build_uri(namespace: &str, local_name: &str) -> (r: String)
    ensures
        r@ == namespace@ + local_name@,
{
    let mut out: Vec<char> = Vec::new();
    push_str(&mut out, namespace);
    push_str(&mut out, local_name);
    string_of(out.as_slice())
}

/// The vocabularies together, with the IRIs of their terms.
pub struct VocabHelper {
    /// Vehicle terms.
    pub av: AVVocab,
    /// Action terms.
    pub action: ActionVocab,
    /// Road terms.
    pub road: RoadVocab,
}

impl VocabHelper {
    /// The helper with each vocabulary's default terms.
    pub fn new() -> (r: VocabHelper)
        ensures
            r.av.vehicle@ == "Vehicle"@,
            r.action.brake@ == "Brake"@,
            r.road.road_segment@ == "RoadSegment"@,
    {
        VocabHelper { av: AVVocab::default(), action: ActionVocab::default(), road: RoadVocab::default() }
    }

    /// The IRI of a term in the vehicle namespace.
    pub fn av_uri(&self, term: &str) -> (r: String)
        ensures
            r@ == AV_NS@ + term@,
    {
        build_uri(AV_NS, term)
    }

    /// The IRI of a term in the action namespace.
    pub fn action_uri(&self, term: &str) -> (r: String)
        ensures
            r@ == ACTION_NS@ + term@,
    {
        build_uri(ACTION_NS, term)
    }

    /// The IRI of a term in the road namespace.
    pub fn road_uri(&self, term: &str) -> (r: String)
        ensures
            r@ == ROAD_NS@ + term@,
    {
        build_uri(ROAD_NS, term)
    }

    /// The IRI of a term in the sensor namespace.
    pub fn sensor_uri(&self, term: &str) -> (r: String)
        ensures
            r@ == SENSOR_NS@ + term@,
    {
        build_uri(SENSOR_NS, term)
    }

    /// The IRI of a term in the hypergraph namespace.
    pub fn hyper_uri(&self, term: &str) -> (r: String)
        ensures
            r@ == HYPER_NS@ + term@,
    {
        build_uri(HYPER_NS, term)
    }
}

} // verus!
