//! The schema descriptor: a fixed, machine-readable JSON Schema document for
//! the receipt input shape. It depends on no receipt data, so the document is
//! a constant and its contract pins it exactly.

use vstd::prelude::*;

verus! {

/// The JSON Schema document describing a valid receipt: an object with an
/// `items` mapping of names to `{price, people}` objects, an `extras` mapping
/// of names to numbers, and a numeric `total`.
pub open spec fn receipt_schema_text() -> Seq<char> {
    "{\n  \"$schema\": \"http://json-schema.org/draft-07/schema#\",\n  \"title\": \"Receipt\",\n  \"type\": \"object\",\n  \"required\": [\n    \"extras\",\n    \"items\",\n    \"total\"\n  ],\n  \"properties\": {\n    \"items\": {\n      \"type\": \"object\",\n      \"additionalProperties\": {\n        \"$ref\": \"#/definitions/Item\"\n      }\n    },\n    \"extras\": {\n      \"type\": \"object\",\n      \"additionalProperties\": {\n        \"type\": \"number\"\n      }\n    },\n    \"total\": {\n      \"type\": \"number\"\n    }\n  },\n  \"definitions\": {\n    \"Item\": {\n      \"type\": \"object\",\n      \"required\": [\n        \"people\",\n        \"price\"\n      ],\n      \"properties\": {\n        \"price\": {\n          \"type\": \"number\"\n        },\n        \"people\": {\n          \"type\": \"object\",\n          \"additionalProperties\": {\n            \"type\": \"number\"\n          }\n        }\n      }\n    }\n  }\n}"@
}

/// The schema document as an owned string, always the same document whatever
/// the receipt data at hand.
pub fn receipt_schema() -> (r: String)
    ensures
        r@ == receipt_schema_text(),
{
    "{\n  \"$schema\": \"http://json-schema.org/draft-07/schema#\",\n  \"title\": \"Receipt\",\n  \"type\": \"object\",\n  \"required\": [\n    \"extras\",\n    \"items\",\n    \"total\"\n  ],\n  \"properties\": {\n    \"items\": {\n      \"type\": \"object\",\n      \"additionalProperties\": {\n        \"$ref\": \"#/definitions/Item\"\n      }\n    },\n    \"extras\": {\n      \"type\": \"object\",\n      \"additionalProperties\": {\n        \"type\": \"number\"\n      }\n    },\n    \"total\": {\n      \"type\": \"number\"\n    }\n  },\n  \"definitions\": {\n    \"Item\": {\n      \"type\": \"object\",\n      \"required\": [\n        \"people\",\n        \"price\"\n      ],\n      \"properties\": {\n        \"price\": {\n          \"type\": \"number\"\n        },\n        \"people\": {\n          \"type\": \"object\",\n          \"additionalProperties\": {\n            \"type\": \"number\"\n          }\n        }\n      }\n    }\n  }\n}".to_owned()
}

} // verus!
