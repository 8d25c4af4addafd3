# gqlfreez

Freeze GraphQL query results into JSON files, next to the queries: `src/posts.graphql` becomes
`src/posts.json`. A field that contains `nodes` or `edges` is a Relay connection; without a limit
on it, every page is fetched and the results are joined.

A result is whole or there is none. A query that could not be frozen whole is refused with a
message: a connection without a limit inside another connection, or in a fragment that is spread
there; a list of it that only a fragment has; or a `pageInfo` under a `@skip` or `@include` that
may leave it out. A limit is a limit: what has one is taken as it is. `auto` is accepted as the limit of a connection
only, where the page size takes its place. A page that does not say whether there is a next one is
an error. What was added to a query to find its way through the pages is taken out of the result.

The library in `src/` is verified with Verus. It does no input or output of its own: it says what
to ask the endpoint, what to make of each answer and what to write. The program in `app/` reads,
sends and writes.

| Module | What it decides |
|---|---|
| `query`, `fragments`, `graph`, `syntax`, `edit` | the connections of a query, and the documents that ask for their pages |
| `paginate` | which page to ask for next, and how pages are merged |
| `fetch` | what is sent, what a reply means, when to try again |
| `json`, `output` | JSON values, the text of a frozen file, whether it is to be written |
| `discover`, `path`, `sort` | which output belongs to which query, and in which order |
| `config`, `options`, `defaults`, `cli`, `logger` | what was asked for, and what is answered |
| `engine` | what becomes of each file, and of all of them together |
| `errors`, `text` | what is wrong, and in which words |

Contracts speak of mathematical models (the view of each type), and messages are stated word for
word. Public functions whose names begin with `law_` state what holds across functions: that every
connection without a limit is walked, that pages are joined in order, that a limited connection is
asked for as it was written, that a result is called frozen only where its file is moved into
place, and so on.

What is taken on trust stands behind functions marked `external_body`, next to the outside call
that each one makes: the GraphQL parser, `serde_json`, the checks of HTTP headers, and a few
functions of the standard library.
