//! Built-in corpus templates and the example bank.

use vstd::prelude::*;

verus! {

/// Full reference: grammar, fields, semantics, and six examples.
pub const FULL_TMPL: &'static str = r#"# AGM v1.2.0 — Full Reference

AGM (Agent Graph Memory) is a compact, line-oriented text format for
representing knowledge as a directed graph. It is designed for AI agent
workflows: each node encodes one unit of knowledge (facts, rules, workflows,
decisions and more) together with explicit dependencies, verification
contracts and execution semantics. AGM files can be statically analyzed,
loaded at several levels of detail, rendered to other formats, or run as a
graph of agent tasks in dependency order.

## 1. File structure

A file describes exactly one package. It starts with a header and continues
with nodes:

```
agm: 1.2
package: <dotted.package.name>
version: <semver>
title: <optional human title>
owner: <optional team or person>
imports: [<optional other packages>]
```

- `agm` is the format version; write `1.2`.
- `package` is a dotted lowercase name: `payments.refunds`.
- `version` is a semantic version such as `2.3.0`.
- Header fields appear once, before the first node.

## 2. Lexical rules

- One field per line, written `key: value`.
- A node starts with `node <id>` at column 0 and ends at the next `node`
  line or at the end of the file.
- Ids are dotted lowercase segments; inside a segment `-` and `_` are
  allowed: `auth.session.refresh-token`.
- Lists are written inline, `[a, b, c]`, or as a block of lines indented
  by two spaces that start with `- `.
- Text blocks (`detail`, `code`, `notes`) continue on the following lines,
  indented by two spaces; a line at column 0 ends the block.
- Comments start with `#` at column 0 and are ignored.
- Blank lines between nodes are ignored; trailing spaces are not
  significant.
- Keys are case-sensitive and always lowercase.

## 3. Node types

| type | meaning | typical fields |
|------|---------|----------------|
| facts | statements that are true in the domain | items |
| rules | constraints that must always hold | items, priority |
| workflow | ordered steps that reach a goal | steps, depends |
| entity | a thing with named attributes | fields, related_to |
| decision | a choice and its rationale | detail, alternatives |
| exception | handling of a failure or edge case | items, depends |
| example | a worked sample | input, output |
| glossary | definitions of terms | items |
| anti_pattern | what to avoid and why | items, detail |
| orchestration | a runnable unit of agent work | agent_context, verify |
| ticket | a unit of planned work | title, action, labels |

Custom types are allowed when prefixed with `x_` (for example
`x_runbook`); validators treat them as opaque.

## 4. Fields

Required on every node:
- `type` — one of the types above.
- `summary` — a single line of at most 200 characters that says what the
  node is about. Summaries should be unique within a package.

Graph fields:
- `depends` — ids that must be understood (or executed) first. The graph
  formed by `depends` must be acyclic.
- `related_to` — ids worth reading together, with no ordering.
- `replaces` — the id of a node this one supersedes.

Content fields:
- `items` — bullet list of facts, rules or definitions.
- `steps` — ordered list of workflow steps.
- `detail` — longer prose, only shown at full expansion.
- `code` — a code block; `code_lang` names its language.
- `input` / `output` — for example nodes.
- `tags` — inline list of free-form labels.
- `priority` — `critical`, `high`, `normal` or `low`.

Execution fields (orchestration and ticket nodes):
- `agent_context` — what to give the agent: `load_nodes`, `load_files`,
  `load_memory` and a `system_hint`.
- `verify` — checks that decide whether the node succeeded:
  `command` (with `expect: exit_code_0`, `stdout_contains`), `file_exists`,
  `file_contains`, `file_not_contains`, and `node_status`.
- `memory` — entries the node reads or writes: each has `key`, `topic`,
  `action` (`read`, `upsert`, `delete`, `list`, `search`), `scope`
  (`node`, `session`, `project`, `global`) and `ttl` (`permanent`,
  `session`, or an ISO 8601 duration such as `P7D` or `PT1H`).

Ticket fields: `title`, `description`, `action` (`create`, `update`,
`close`), `labels`, `assignee`, `sdd_phase`.

## 5. Semantics

- Loading: a loader can expand a node at summary, operational or full
  level. Summary shows `type` and `summary`; operational adds items, steps
  and dependencies; full adds `detail` and code.
- Execution: nodes run in topological order of `depends`. A node is
  ready when every dependency has completed. A failed node blocks its
  dependents until it is retried.
- Status values: pending, ready, in_progress, completed, failed, blocked,
  skipped.
- Verification runs after the agent reports success; the node completes
  only when every check passes.
- Memory written with `scope: project` or `scope: global` persists across
  runs; `session` memory lasts one run; `node` memory is private to one
  node and is cleared when the node is reset.

## 6. Examples

```agm
agm: 1.2
package: shop.checkout
version: 1.0.0

node shop.cart.rules
type: rules
summary: cart limits applied before payment
priority: high
items:
  - at most 50 distinct products per cart
  - quantities are positive integers
  - prices are fixed when the cart is locked
```

```agm
node shop.checkout.flow
type: workflow
summary: take a cart through payment to an order
depends: [shop.cart.rules]
steps:
  - validate the cart against shop.cart.rules
  - lock prices and reserve stock
  - charge the payment method
  - create the order record and email a receipt
```

```agm
node shop.payment.declined
type: exception
summary: what to do when the card is declined
depends: [shop.checkout.flow]
items:
  - release reserved stock
  - keep the cart and show the decline reason
  - allow a second attempt with another method
```

```agm
node shop.order
type: entity
summary: a confirmed purchase
fields:
  - id: uuid
  - customer_id: uuid
  - total_cents: integer
  - status: pending | paid | shipped | refunded
related_to: [shop.checkout.flow]
```

```agm
node shop.refund.run
type: orchestration
summary: implement the refund endpoint
depends: [shop.order]
agent_context:
  load_nodes: [shop.order, shop.checkout.flow]
  system_hint: follow the existing handler layout
verify:
  - type: command
    run: cargo test refund
    expect: exit_code_0
  - type: file_exists
    file: src/refund.rs
memory:
  - key: refund.endpoint
    topic: api
    action: upsert
    scope: project
    ttl: P30D
```

```agm
node shop.ticket.refund-ui
type: ticket
title: Add refund button to the order page
description: Show a refund button for paid orders younger than 30 days.
action: create
priority: normal
labels: [ui, refunds]
summary: refund button on the order page
```

## 7. Writing guidelines

- Prefer several small nodes over one large node.
- Put each fact once and point to it with `depends`.
- Keep summaries short, concrete and unique.
- Use only the fields listed above; never invent field names.
- Quote nothing: values run to the end of the line.

## 8. Common mistakes

- A `depends` entry that names a node missing from the package.
- A cycle such as `a` depends on `b` while `b` depends on `a`.
- Two nodes with the same id; ids must be unique within a package.
- A multi-line `summary`; move the extra text to `detail`.
- A `ttl` that is not `permanent`, `session` or an ISO 8601 duration
  (calendar months such as `P1M` are not accepted; use days).
- Fields indented at column 0 inside a block, which ends the block early."#;

/// Standard reference: abridged grammar and three examples.
pub const STANDARD_TMPL: &'static str = r#"# AGM v1.2.0 — Standard Reference

AGM (Agent Graph Memory) is a compact, line-oriented text format for
knowledge that agents read and execute. A file holds one package: a header
and a list of nodes. Nodes reference each other through `depends`, which
makes the file a directed acyclic graph that can be loaded, rendered or run
in dependency order.

## File header

```
agm: 1.2
package: <dotted.package.name>
version: <semver>
title: <optional human title>
```

The header must come first. `package` uses dotted lowercase segments;
`version` is a semantic version such as `1.0.0`.

## Node syntax

- A node begins with `node <id>` at column 0.
- Ids are dotted lowercase segments with `-` or `_` allowed inside a
  segment: `billing.invoice.create-draft`.
- Each field is `key: value` on its own line.
- A list field is either inline, `[a, b, c]`, or a block of indented
  `- item` lines.
- A text block field (`detail`, `code`) continues on the following lines,
  indented by two spaces.
- Blank lines separate nodes; comments start with `#` at column 0.

## Node types

| type | use for |
|------|---------|
| facts | statements that are true in the domain |
| rules | constraints that must always hold |
| workflow | ordered steps to reach a goal |
| entity | a thing with named attributes |
| decision | a choice with its rationale |
| exception | how to handle a failure or edge case |
| example | a worked sample of input and output |
| glossary | term definitions |
| anti_pattern | what to avoid, and why |
| orchestration | a runnable unit for an agent |
| ticket | a unit of planned work |

## Core fields

- `type` (required) and `summary` (required, one line, ≤ 200 chars).
- `depends`: ids this node needs first; the loader follows them.
- `related_to`: ids worth reading alongside, without ordering.
- `items`: bullet facts or rules. `steps`: ordered workflow steps.
- `detail`: longer prose shown only at full expansion.
- `tags`, `priority` (`critical`, `high`, `normal`, `low`).
- `verify`: checks run after execution (`command`, `file_exists`,
  `file_contains`, `node_status`).

## Examples

```agm
agm: 1.2
package: shop.checkout
version: 1.0.0

node shop.cart.rules
type: rules
summary: cart limits applied before payment
items:
  - at most 50 distinct products per cart
  - quantities are positive integers

node shop.checkout.flow
type: workflow
summary: take a cart through payment to an order
depends: [shop.cart.rules]
steps:
  - validate the cart against shop.cart.rules
  - reserve stock
  - charge the payment method
  - create the order record
```

```agm
node shop.payment.declined
type: exception
summary: what to do when the card is declined
depends: [shop.checkout.flow]
items:
  - release reserved stock
  - keep the cart and show the decline reason
```

```agm
node shop.db.choice
type: decision
summary: orders live in PostgreSQL
detail:
  We need transactions across stock and orders, so a relational store
  with serializable isolation was chosen over a document store.
```

Emit only fields you know; never invent new field names."#;

/// Grammar summary with one minimal example.
pub const GRAMMAR_ONLY_TMPL: &'static str = r#"# AGM v1.2.0 — Compact Reference

AGM (Agent Graph Memory) is a line-oriented text format. A file is a header
followed by nodes. Each node is one unit of knowledge; dependencies between
nodes form a directed acyclic graph.

## Header

```
agm: 1.2
package: <dotted.package.name>
version: <semver>
```

## Nodes

A node starts with `node <id>` on its own line. Ids are dotted lowercase
words (`auth.login.flow`). Fields follow as `key: value`, one per line,
until the next `node` line or the end of the file.

Required fields: `type`, `summary`.

Common fields:
- `type:` one of facts, rules, workflow, entity, decision, exception,
  example, glossary, anti_pattern, orchestration, ticket
- `summary:` one line, at most 200 characters
- `depends:` inline list of node ids, `[a.b, c.d]`
- `items:` / `steps:` indented `- ` lists
- `detail:` a block; indented lines follow

## Minimal example

```agm
agm: 1.2
package: demo.notes
version: 0.1.0

node demo.greeting
type: facts
summary: the service greets users by name
items:
  - greeting text is "Hello, <name>"
```"#;

/// Example bank entry `ex1`.
pub const EX1: &'static str = r#"agm: 1.2
package: acme.auth
version: 1.0.0

node acme.auth.password-rules
type: rules
summary: password requirements for new accounts
priority: critical
items:
  - at least 12 characters
  - not found in the breached-password list
  - not equal to the email address"#;

/// Example bank entry `ex2`.
pub const EX2: &'static str = r#"agm: 1.2
package: acme.auth
version: 1.0.0

node acme.auth.login
type: workflow
summary: sign a user in with email and password
depends: [acme.auth.password-rules]
steps:
  - look up the account by email
  - compare the password hash in constant time
  - issue a session token valid for 12 hours
  - record the login time"#;

/// Example bank entry `ex3`.
pub const EX3: &'static str = r#"agm: 1.2
package: acme.billing
version: 2.1.0

node acme.billing.invoice
type: entity
summary: a bill sent to a customer
fields:
  - id: uuid
  - customer_id: uuid
  - amount_cents: integer
  - due_on: date
  - state: draft | sent | paid | void"#;

/// Example bank entry `ex4`.
pub const EX4: &'static str = r#"agm: 1.2
package: acme.billing
version: 2.1.0

node acme.billing.currency
type: decision
summary: all amounts are stored in integer cents
detail:
  Floating point rounding caused off-by-one-cent totals in reports.
  Storing integer cents keeps sums exact; formatting happens at the edge.
alternatives: [decimal strings, floating point]"#;

/// Example bank entry `ex5`.
pub const EX5: &'static str = r#"agm: 1.2
package: acme.ops
version: 0.3.0

node acme.ops.disk-full
type: exception
summary: what to do when the data volume is full
items:
  - stop accepting uploads and return 507
  - page the on-call engineer
  - delete expired temporary files before anything else"#;

/// Example bank entry `ex6`.
pub const EX6: &'static str = r#"agm: 1.2
package: acme.glossary
version: 1.0.0

node acme.glossary.terms
type: glossary
summary: words used across the acme services
items:
  - tenant: one customer organisation and its users
  - seat: a paid user licence inside a tenant
  - workspace: a folder of projects owned by a tenant"#;

/// Example bank entry `ex7`.
pub const EX7: &'static str = r#"agm: 1.2
package: acme.api
version: 1.4.0

node acme.api.no-n-plus-one
type: anti_pattern
summary: do not load related rows one query at a time
items:
  - one query per list item multiplies latency
  - fetch related rows with a join or a single IN query
detail:
  The orders page issued 200 queries for 200 orders before this rule."#;

/// Example bank entry `ex8`.
pub const EX8: &'static str = r#"agm: 1.2
package: acme.api
version: 1.4.0

node acme.api.pagination-example
type: example
summary: cursor pagination request and response
input: GET /orders?limit=2&cursor=abc
output: {"items": [{"id": 7}, {"id": 8}], "next": "def"}"#;

/// Example bank entry `ex9`.
pub const EX9: &'static str = r#"agm: 1.2
package: acme.build
version: 0.9.0

node acme.build.add-healthcheck
type: orchestration
summary: add a /health endpoint to the api server
agent_context:
  load_files: [src/server.rs]
  system_hint: keep the handler free of database calls
verify:
  - type: command
    run: cargo test health
    expect: exit_code_0
  - type: file_contains
    file: src/server.rs
    pattern: /health"#;

/// Example bank entry `ex10`.
pub const EX10: &'static str = r#"agm: 1.2
package: acme.build
version: 0.9.0

node acme.build.remember-port
type: orchestration
summary: record the port the api listens on
depends: [acme.build.add-healthcheck]
memory:
  - key: api.port
    topic: runtime
    action: upsert
    scope: project
    ttl: permanent
verify:
  - type: node_status
    node: acme.build.add-healthcheck
    status: completed"#;

/// Example bank entry `ex11`.
pub const EX11: &'static str = r#"agm: 1.2
package: acme.roadmap
version: 1.0.0

node acme.roadmap.export-csv
type: ticket
title: Export invoices as CSV
description: Let finance download all invoices of a month as one CSV file.
action: create
priority: high
labels: [billing, export]
summary: monthly invoice CSV export"#;

/// Example bank entry `ex12`.
pub const EX12: &'static str = r#"agm: 1.2
package: acme.facts
version: 1.0.0

node acme.facts.limits
type: facts
summary: service limits customers ask about
items:
  - uploads are limited to 100 MB per file
  - a tenant may have at most 500 seats
  - API keys expire after 365 days
  - deleted workspaces are kept for 30 days"#;

} // verus!
